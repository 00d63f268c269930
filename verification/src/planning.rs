//! Pure navigation-wave planning, separated from cache and worker state so
//! scheduling behavior is a function of its arguments.

use std::collections::{HashMap, HashSet};
use std::sync::Arc;

use vstd::prelude::*;

use crate::types::Tier;

pub mod coverage;

verus! {

broadcast use vstd::std_specs::hash::group_hash_axioms;

/// Largest effective distance of an interactive Browse target.
pub const BROWSE_WINDOW: u32 = 24;

const FULL_NEIGHBOR_WINDOW: u32 = 1;

const INTERACTIVE_TARGET_CAPACITY: usize = 36;

/// Purpose of a planned render target.
#[derive(Debug, Clone, Copy, PartialEq, Eq, Structural)]
pub enum PlanKind {
    /// A display candidate. The engine chooses develop versus rehydrate from
    /// current cache state.
    Display,
    /// A Full-resolution candidate admitted by the adaptive RAM working set.
    /// It is useful for instant future zooming but is not yet user-visible.
    Prefetch,
    /// A far browse render that should warm ring 2 and disk without entering
    /// the decoded RGBA ring.
    Warm,
}

/// One desired render in a navigation wave.
#[derive(Debug, Clone, Copy, PartialEq, Eq, Structural)]
pub struct PlanTarget {
    /// Folder index to render.
    pub index: usize,
    /// Render quality/cache tier.
    pub tier: Tier,
    /// Coarse priority class; lower values run first.
    pub class: u8,
    /// Direction-weighted distance used within a priority class.
    ///
    /// Entries behind the navigation direction count three times farther than
    /// entries ahead.
    pub effective_distance: u32,
    /// Whether the render is required for display, speculative Full prefetch,
    /// or persistent background warming.
    pub kind: PlanKind,
}

/// A member of the adaptive Full-resolution working set.
#[derive(Debug, Clone, Copy, PartialEq, Eq, Structural)]
pub struct FullSelection {
    /// Folder index to render.
    pub index: usize,
    /// Direction-weighted distance of the index.
    pub effective_distance: u32,
    /// Whether the selection is kept whatever the byte budget.
    pub required: bool,
}

// ---------------------------------------------------------------------------
// Distances
// ---------------------------------------------------------------------------

/// `value`, or the largest `u32` where it is larger.
pub open spec fn clamp_u32(value: int) -> int {
    if value > u32::MAX {
        u32::MAX as int
    } else {
        value
    }
}

/// Number of positions between `position` and `origin`.
pub open spec fn gap(position: int, origin: int) -> int {
    if position > origin {
        position - origin
    } else {
        origin - position
    }
}

/// Whether `position` lies in the navigation direction of `origin`.
pub open spec fn is_ahead(position: int, origin: int, forward: bool) -> bool {
    (position > origin) == forward
}

/// Distance with everything behind the navigation direction counted three
/// times.
pub open spec fn effective(position: int, origin: int, forward: bool) -> int {
    if is_ahead(position, origin, forward) {
        clamp_u32(gap(position, origin))
    } else {
        clamp_u32(3 * gap(position, origin))
    }
}

/// Number of positions in display order; an empty sequence is identity order.
pub open spec fn ordered_len(len: nat, sequence: Seq<usize>) -> nat {
    if sequence.len() == 0 {
        len
    } else {
        sequence.len()
    }
}

/// Folder index displayed at `position`.
pub open spec fn index_at(sequence: Seq<usize>, position: int) -> int {
    if sequence.len() == 0 {
        position
    } else {
        sequence[position] as int
    }
}

/// Position of `current` in display order: its first occurrence, or the start
/// where a nonempty sequence omits it.
pub open spec fn origin_of(current: int, sequence: Seq<usize>) -> int {
    if sequence.len() == 0 {
        current
    } else {
        match sequence.index_of_first(current as usize) {
            Some(position) => position,
            None => 0,
        }
    }
}

/// `current` moved into the folder.
pub open spec fn clamp_index(len: nat, current: int) -> int {
    if current < len {
        current
    } else {
        len - 1
    }
}

// ---------------------------------------------------------------------------
// The interactive wave
// ---------------------------------------------------------------------------

/// A display target.
pub open spec fn display(index: int, tier: Tier, class: u8, distance: int) -> PlanTarget {
    PlanTarget {
        index: index as usize,
        tier,
        class,
        effective_distance: distance as u32,
        kind: PlanKind::Display,
    }
}

/// The two targets of the current image. Zooming raises its Full render to the
/// highest priority.
pub open spec fn current_targets(current: int, zoomed: bool) -> Seq<PlanTarget> {
    seq![
        display(current, Tier::Browse, 0, 0),
        display(
            current,
            Tier::Full,
            if zoomed {
                0
            } else {
                1
            },
            0,
        ),
    ]
}

/// The targets that one position of the display order contributes.
pub open spec fn neighbor_targets(
    len: nat,
    current: int,
    origin: int,
    forward: bool,
    sequence: Seq<usize>,
    position: int,
) -> Seq<PlanTarget> {
    let index = index_at(sequence, position);
    let distance = effective(position, origin, forward);
    if index == current || index >= len {
        seq![]
    } else if gap(position, origin) <= 1 {
        seq![
            display(index, Tier::Browse, 2, distance),
            display(index, Tier::Full, 3, distance),
        ]
    } else if distance <= BROWSE_WINDOW {
        seq![display(index, Tier::Browse, 4, distance)]
    } else {
        seq![]
    }
}

/// The targets of the positions `first..end`, in display order.
pub open spec fn scan_targets(
    len: nat,
    current: int,
    origin: int,
    forward: bool,
    sequence: Seq<usize>,
    first: int,
    end: int,
) -> Seq<PlanTarget>
    decreases end - first,
{
    if first >= end {
        seq![]
    } else {
        scan_targets(len, current, origin, forward, sequence, first, end - 1) + neighbor_targets(
            len,
            current,
            origin,
            forward,
            sequence,
            end - 1,
        )
    }
}

/// The warm targets of the folder indices `0..end`: everything outside the
/// interactive window of `current` in identity order.
pub open spec fn warm_targets(current: int, forward: bool, end: int) -> Seq<PlanTarget>
    decreases end,
{
    if end <= 0 {
        seq![]
    } else {
        let rest = warm_targets(current, forward, end - 1);
        let distance = effective(end - 1, current, forward);
        if end - 1 != current && distance > BROWSE_WINDOW {
            rest.push(
                PlanTarget {
                    index: (end - 1) as usize,
                    tier: Tier::Browse,
                    class: 6,
                    effective_distance: distance as u32,
                    kind: PlanKind::Warm,
                },
            )
        } else {
            rest
        }
    }
}

/// The navigation wave: the current image, then a scan of the whole display
/// order, then the warm targets where they are asked for.
pub open spec fn plan(
    len: nat,
    current: int,
    forward: bool,
    zoomed: bool,
    sequence: Seq<usize>,
    include_warm: bool,
) -> Seq<PlanTarget> {
    if len == 0 {
        seq![]
    } else {
        let index = clamp_index(len, current);
        current_targets(index, zoomed) + scan_targets(
            len,
            index,
            origin_of(index, sequence),
            forward,
            sequence,
            0,
            ordered_len(len, sequence) as int,
        ) + if include_warm {
            warm_targets(index, forward, len as int)
        } else {
            seq![]
        }
    }
}

proof fn lemma_scan_split(
    len: nat,
    current: int,
    origin: int,
    forward: bool,
    sequence: Seq<usize>,
    first: int,
    middle: int,
    end: int,
)
    requires
        first <= middle <= end,
    ensures
        scan_targets(len, current, origin, forward, sequence, first, end) == scan_targets(
            len,
            current,
            origin,
            forward,
            sequence,
            first,
            middle,
        ) + scan_targets(len, current, origin, forward, sequence, middle, end),
    decreases end - middle,
{
    if middle < end {
        lemma_scan_split(len, current, origin, forward, sequence, first, middle, end - 1);
    }
    assert(scan_targets(len, current, origin, forward, sequence, first, end) =~= scan_targets(
        len,
        current,
        origin,
        forward,
        sequence,
        first,
        middle,
    ) + scan_targets(len, current, origin, forward, sequence, middle, end));
}

proof fn lemma_scan_far_is_empty(
    len: nat,
    current: int,
    origin: int,
    forward: bool,
    sequence: Seq<usize>,
    first: int,
    end: int,
)
    requires
        forall|position: int|
            first <= position < end ==> #[trigger] effective(position, origin, forward)
                > BROWSE_WINDOW && gap(position, origin) > 1,
    ensures
        scan_targets(len, current, origin, forward, sequence, first, end) == Seq::<
            PlanTarget,
        >::empty(),
    decreases end - first,
{
    if first < end {
        lemma_scan_far_is_empty(len, current, origin, forward, sequence, first, end - 1);
        assert(effective(end - 1, origin, forward) > BROWSE_WINDOW);
    }
    assert(scan_targets(len, current, origin, forward, sequence, first, end) =~= Seq::<
        PlanTarget,
    >::empty());
}

/// Direction-weighted distance of `position`, beside its unweighted distance.
fn weighted_distance(position: usize, current_position: usize, direction: i8) -> (distances: (
    u32,
    u32,
))
    ensures
        distances.0 == clamp_u32(gap(position as int, current_position as int)),
        distances.1 == effective(position as int, current_position as int, direction >= 0),
{
    let ahead: bool = (position > current_position) == (direction >= 0);
    let span: usize = if position > current_position {
        position - current_position
    } else {
        current_position - position
    };
    let distance: u32 = if span > u32::MAX as usize {
        u32::MAX
    } else {
        span as u32
    };
    let effective_distance: u32 = if ahead {
        distance
    } else if distance > u32::MAX / 3 {
        u32::MAX
    } else {
        distance * 3
    };
    (distance, effective_distance)
}

fn current_position(current: usize, sequence: &[usize]) -> (position: usize)
    ensures
        position == origin_of(current as int, sequence@),
{
    if sequence.len() == 0 {
        return current;
    }
    let mut position: usize = 0;
    while position < sequence.len()
        invariant
            position <= sequence@.len(),
            forall|earlier: int| 0 <= earlier < position ==> sequence@[earlier] != current,
        decreases sequence@.len() - position,
    {
        if sequence[position] == current {
            proof {
                lemma_first_occurrence(sequence@, current, position as int);
            }
            return position;
        }
        position += 1;
    }
    proof {
        assert(!sequence@.contains(current));
        sequence@.index_of_first_ensures(current);
    }
    0
}

proof fn lemma_first_occurrence(sequence: Seq<usize>, needle: usize, position: int)
    requires
        0 <= position < sequence.len(),
        sequence[position] == needle,
        forall|earlier: int| 0 <= earlier < position ==> sequence[earlier] != needle,
    ensures
        sequence.index_of_first(needle) == Some(position),
{
    sequence.index_of_first_ensures(needle);
}

fn push_warm_targets(targets: &mut Vec<PlanTarget>, len: usize, current: usize, direction: i8)
    ensures
        final(targets)@ == old(targets)@ + warm_targets(
            current as int,
            direction >= 0,
            len as int,
        ),
{
    let mut index: usize = 0;
    while index < len
        invariant
            index <= len,
            targets@ =~= old(targets)@ + warm_targets(
                current as int,
                direction >= 0,
                index as int,
            ),
        decreases len - index,
    {
        let (_, effective_distance) = weighted_distance(index, current, direction);
        if index != current && effective_distance > BROWSE_WINDOW {
            targets.push(
                PlanTarget {
                    index,
                    tier: Tier::Browse,
                    class: 6,
                    effective_distance,
                    kind: PlanKind::Warm,
                },
            );
        }
        index += 1;
    }
}

fn push_current_targets(targets: &mut Vec<PlanTarget>, current: usize, zoomed: bool)
    ensures
        final(targets)@ == old(targets)@ + current_targets(current as int, zoomed),
{
    targets.push(
        PlanTarget {
            index: current,
            tier: Tier::Browse,
            class: 0,
            effective_distance: 0,
            kind: PlanKind::Display,
        },
    );
    targets.push(
        PlanTarget {
            index: current,
            tier: Tier::Full,
            class: if zoomed {
                0
            } else {
                1
            },
            effective_distance: 0,
            kind: PlanKind::Display,
        },
    );
    assert(targets@ =~= old(targets)@ + current_targets(current as int, zoomed));
}

/// Positions outside the interactive window contribute nothing to a scan.
proof fn lemma_window(
    len: nat,
    current: int,
    origin: int,
    forward: bool,
    sequence: Seq<usize>,
    first: int,
    last: int,
    count: int,
)
    requires
        0 <= first <= origin <= last < count,
        first == 0 || origin - first >= if forward {
            8int
        } else {
            24int
        },
        last == count - 1 || last - origin >= if forward {
            24int
        } else {
            8int
        },
    ensures
        scan_targets(len, current, origin, forward, sequence, 0, count) == scan_targets(
            len,
            current,
            origin,
            forward,
            sequence,
            first,
            last + 1,
        ),
{
    lemma_scan_far_is_empty(len, current, origin, forward, sequence, 0, first);
    lemma_scan_far_is_empty(len, current, origin, forward, sequence, last + 1, count);
    lemma_scan_split(len, current, origin, forward, sequence, 0, first, last + 1);
    lemma_scan_split(len, current, origin, forward, sequence, 0, last + 1, count);
    assert(scan_targets(len, current, origin, forward, sequence, 0, count) =~= scan_targets(
        len,
        current,
        origin,
        forward,
        sequence,
        first,
        last + 1,
    ));
}

fn push_neighbor_targets(
    targets: &mut Vec<PlanTarget>,
    len: usize,
    current: usize,
    direction: i8,
    sequence: &[usize],
)
    requires
        current < len,
    ensures
        final(targets)@ == old(targets)@ + scan_targets(
            len as nat,
            current as int,
            origin_of(current as int, sequence@),
            direction >= 0,
            sequence@,
            0,
            ordered_len(len as nat, sequence@) as int,
        ),
{
    let origin: usize = current_position(current, sequence);
    proof {
        lemma_origin_in_order(len as nat, current as int, sequence@);
    }
    let count: usize = if sequence.len() == 0 {
        len
    } else {
        sequence.len()
    };
    let before: usize = if direction >= 0 {
        8
    } else {
        24
    };
    let after: usize = if direction >= 0 {
        24
    } else {
        8
    };
    let first: usize = origin.saturating_sub(before);
    let reach: usize = origin.saturating_add(after);
    let last: usize = if reach < count - 1 {
        reach
    } else {
        count - 1
    };
    let ghost forward = direction >= 0;
    let ghost start = targets@;
    let mut position: usize = first;
    while position <= last
        invariant
            first <= position <= last + 1,
            last < count,
            current < len,
            count == ordered_len(len as nat, sequence@),
            forward == (direction >= 0),
            targets@ =~= start + scan_targets(
                len as nat,
                current as int,
                origin as int,
                forward,
                sequence@,
                first as int,
                position as int,
            ),
        decreases last + 1 - position,
    {
        let index: usize = if sequence.len() == 0 {
            position
        } else {
            sequence[position]
        };
        let (distance, effective_distance) = weighted_distance(position, origin, direction);
        if index != current && index < len {
            if distance <= FULL_NEIGHBOR_WINDOW {
                targets.push(
                    PlanTarget {
                        index,
                        tier: Tier::Browse,
                        class: 2,
                        effective_distance,
                        kind: PlanKind::Display,
                    },
                );
                targets.push(
                    PlanTarget {
                        index,
                        tier: Tier::Full,
                        class: 3,
                        effective_distance,
                        kind: PlanKind::Display,
                    },
                );
            } else if effective_distance <= BROWSE_WINDOW {
                targets.push(
                    PlanTarget {
                        index,
                        tier: Tier::Browse,
                        class: 4,
                        effective_distance,
                        kind: PlanKind::Display,
                    },
                );
            }
        }
        position += 1;
    }
    proof {
        lemma_window(
            len as nat,
            current as int,
            origin as int,
            forward,
            sequence@,
            first as int,
            last as int,
            count as int,
        );
    }
}

/// Build the desired navigation wave without inspecting cache state.
///
/// `sequence` is display order after filtering. An empty slice means identity
/// order. `include_warm` adds browse-only work outside the interactive window
/// for a configured disk cache.
///
/// `current` is clamped to `len - 1`, and any negative `direction` means
/// backward while zero and positive values mean forward. If a nonempty
/// `sequence` omits `current`, its first position is used as the navigation
/// origin; out-of-range sequence entries are ignored. Callers should normally
/// supply unique valid indices.
///
/// Full targets always include the current item and its immediate visible
/// neighbors so zoom can use native-resolution pixels without starting new
/// work. `zoomed` raises the current Full target to the highest priority.
/// Only the positions inside the interactive window are visited, although the
/// result is that of a scan of the whole display order.
pub fn build_plan_targets(
    len: usize,
    current: usize,
    direction: i8,
    zoomed: bool,
    sequence: &[usize],
    include_warm: bool,
) -> (targets: Vec<PlanTarget>)
    ensures
        targets@ == plan(
            len as nat,
            current as int,
            direction >= 0,
            zoomed,
            sequence@,
            include_warm,
        ),
{
    if len == 0 {
        return Vec::new();
    }
    let current: usize = if current < len {
        current
    } else {
        len - 1
    };
    let mut targets: Vec<PlanTarget> = Vec::with_capacity(INTERACTIVE_TARGET_CAPACITY);
    push_current_targets(&mut targets, current, zoomed);
    push_neighbor_targets(&mut targets, len, current, direction, sequence);
    if include_warm {
        push_warm_targets(&mut targets, len, current, direction);
    }
    assert(targets@ =~= plan(
        len as nat,
        current as int,
        direction >= 0,
        zoomed,
        sequence@,
        include_warm,
    ));
    targets
}

pub proof fn lemma_origin_in_order(len: nat, current: int, sequence: Seq<usize>)
    requires
        0 <= current < len <= usize::MAX,
    ensures
        0 <= origin_of(current, sequence) < ordered_len(len, sequence),
{
    if sequence.len() > 0 {
        sequence.index_of_first_ensures(current as usize);
    }
}

// ---------------------------------------------------------------------------
// Byte budgets
// ---------------------------------------------------------------------------

/// What a prefetch budget knows: its limit, the estimate of an image that was
/// never measured, and the measured sizes.
pub struct BudgetModel {
    pub limit: int,
    pub fallback: int,
    pub known: Map<usize, u64>,
}

/// The larger of `value` and one.
pub open spec fn at_least_one(value: int) -> int {
    if value < 1 {
        1
    } else {
        value
    }
}

/// Estimated bytes of an image. No image is free.
pub open spec fn cost(budget: BudgetModel, index: int) -> int {
    if budget.known.contains_key(index as usize) {
        at_least_one(budget.known[index as usize] as int)
    } else {
        at_least_one(budget.fallback)
    }
}

/// Byte estimates used to grow the Full-resolution navigation working set.
///
/// Current and immediate visible neighbors are mandatory even when their
/// estimated total exceeds `budget_bytes`. Farther candidates form one
/// direction-weighted prefix and are admitted only while the complete prefix
/// fits. Unknown images use a non-zero conservative fallback estimate.
#[derive(Debug, Clone)]
pub struct FullPrefetchBudget {
    budget_bytes: u64,
    fallback_bytes: u64,
    per_index_bytes: Arc<HashMap<usize, u64>>,
}

impl View for FullPrefetchBudget {
    type V = BudgetModel;

    closed spec fn view(&self) -> BudgetModel {
        BudgetModel {
            limit: self.budget_bytes as int,
            fallback: self.fallback_bytes as int,
            known: self.per_index_bytes@,
        }
    }
}

impl FullPrefetchBudget {
    /// Creates a Full-resolution prefetch budget and per-folder size estimates.
    pub fn new(budget_bytes: u64, fallback_bytes: u64, known_bytes: HashMap<usize, u64>) -> (budget:
        Self)
        ensures
            budget@ == (BudgetModel {
                limit: budget_bytes as int,
                fallback: at_least_one(fallback_bytes as int),
                known: known_bytes@,
            }),
    {
        Self::from_observations(budget_bytes, fallback_bytes, Arc::new(known_bytes))
    }

    /// Creates a budget from shared cache observations without cloning the
    /// per-folder maps on every navigation.
    pub fn from_observations(
        budget_bytes: u64,
        fallback_bytes: u64,
        per_index_bytes: Arc<HashMap<usize, u64>>,
    ) -> (budget: Self)
        ensures
            budget@ == (BudgetModel {
                limit: budget_bytes as int,
                fallback: at_least_one(fallback_bytes as int),
                known: per_index_bytes@,
            }),
    {
        Self {
            budget_bytes,
            fallback_bytes: if fallback_bytes < 1 {
                1
            } else {
                fallback_bytes
            },
            per_index_bytes,
        }
    }

    fn bytes_for(&self, index: usize) -> (bytes: u64)
        ensures
            bytes == cost(self@, index as int),
    {
        estimate(&self.per_index_bytes, self.fallback_bytes, index)
    }
}

/// Byte estimates used to cap the decoded Browse navigation wave.
///
/// The current image and immediate visible neighbors remain mandatory. Farther
/// Browse targets form a priority prefix that cannot exceed `budget_bytes`.
#[derive(Debug, Clone)]
pub struct BrowsePrefetchBudget {
    budget_bytes: u64,
    fallback_bytes: u64,
    per_index_bytes: Arc<HashMap<usize, u64>>,
}

impl View for BrowsePrefetchBudget {
    type V = BudgetModel;

    closed spec fn view(&self) -> BudgetModel {
        BudgetModel {
            limit: self.budget_bytes as int,
            fallback: self.fallback_bytes as int,
            known: self.per_index_bytes@,
        }
    }
}

impl BrowsePrefetchBudget {
    /// Creates a Browse budget and per-folder size estimates.
    pub fn new(budget_bytes: u64, fallback_bytes: u64, known_bytes: HashMap<usize, u64>) -> (budget:
        Self)
        ensures
            budget@ == (BudgetModel {
                limit: budget_bytes as int,
                fallback: at_least_one(fallback_bytes as int),
                known: known_bytes@,
            }),
    {
        Self::from_observations(budget_bytes, fallback_bytes, Arc::new(known_bytes))
    }

    /// Creates a budget from shared cache observations without cloning them on
    /// every navigation.
    pub fn from_observations(
        budget_bytes: u64,
        fallback_bytes: u64,
        per_index_bytes: Arc<HashMap<usize, u64>>,
    ) -> (budget: Self)
        ensures
            budget@ == (BudgetModel {
                limit: budget_bytes as int,
                fallback: at_least_one(fallback_bytes as int),
                known: per_index_bytes@,
            }),
    {
        Self {
            budget_bytes,
            fallback_bytes: if fallback_bytes < 1 {
                1
            } else {
                fallback_bytes
            },
            per_index_bytes,
        }
    }

    fn bytes_for(&self, index: usize) -> (bytes: u64)
        ensures
            bytes == cost(self@, index as int),
    {
        estimate(&self.per_index_bytes, self.fallback_bytes, index)
    }
}

fn estimate(known: &HashMap<usize, u64>, fallback: u64, index: usize) -> (bytes: u64)
    ensures
        bytes == cost(
            BudgetModel { limit: 0, fallback: fallback as int, known: known@ },
            index as int,
        ),
{
    let bytes: u64 = match known.get(&index) {
        Some(bytes) => *bytes,
        None => fallback,
    };
    if bytes < 1 {
        1
    } else {
        bytes
    }
}

/// Browse and Full byte budgets for one adaptive navigation plan.
#[derive(Debug, Clone)]
pub struct NavigationPrefetchBudgets {
    full: FullPrefetchBudget,
    browse: BrowsePrefetchBudget,
}

impl NavigationPrefetchBudgets {
    /// The Full-resolution budget.
    pub closed spec fn full_model(&self) -> BudgetModel {
        self.full@
    }

    /// The Browse budget.
    pub closed spec fn browse_model(&self) -> BudgetModel {
        self.browse@
    }

    /// Combines independently measured Full and Browse cache budgets.
    pub fn new(full: FullPrefetchBudget, browse: BrowsePrefetchBudget) -> (budgets: Self)
        ensures
            budgets.full_model() == full@,
            budgets.browse_model() == browse@,
    {
        Self { full, browse }
    }
}

// ---------------------------------------------------------------------------
// The adaptive wave
// ---------------------------------------------------------------------------

/// Whether every entry of a display order is an index of the folder.
pub open spec fn valid_order(len: nat, sequence: Seq<usize>) -> bool {
    forall|i: int| 0 <= i < sequence.len() ==> #[trigger] sequence[i] < len
}

/// A position beyond the immediate neighbors, with its effective distance.
pub struct Candidate {
    pub position: int,
    pub distance: int,
}

/// The position `distance` steps from `origin`.
pub open spec fn step_from(origin: int, distance: int, up: bool) -> int {
    if up {
        origin + distance
    } else {
        origin - distance
    }
}

/// The positions at least `ahead` steps ahead of `origin` merged with those at
/// least `behind` steps behind it, nearest first when a step behind counts
/// three.
pub open spec fn wave(origin: int, count: int, forward: bool, ahead: int, behind: int) -> Seq<
    Candidate,
>
    decreases
            (if ahead < count {
                count - ahead
            } else {
                0
            }) + (if behind < count {
                count - behind
            } else {
                0
            }),
    when 0 <= origin < count && 0 <= ahead && 0 <= behind
{
    let ahead_position = step_from(origin, ahead, forward);
    let behind_position = step_from(origin, behind, !forward);
    let has_ahead = 0 <= ahead_position < count;
    let has_behind = 0 <= behind_position < count;
    if has_ahead && (!has_behind || ahead <= 3 * behind) {
        seq![Candidate { position: ahead_position, distance: clamp_u32(ahead) }] + wave(
            origin,
            count,
            forward,
            ahead + 1,
            behind,
        )
    } else if has_behind {
        seq![Candidate { position: behind_position, distance: clamp_u32(3 * behind) }] + wave(
            origin,
            count,
            forward,
            ahead,
            behind + 1,
        )
    } else {
        seq![]
    }
}

/// The leading candidates inside the interactive window.
pub open spec fn within_window(candidates: Seq<Candidate>) -> Seq<Candidate>
    decreases candidates.len(),
{
    if candidates.len() == 0 || candidates[0].distance > BROWSE_WINDOW {
        seq![]
    } else {
        seq![candidates[0]] + within_window(candidates.skip(1))
    }
}

/// The leading candidates that fit beside `used` bytes.
pub open spec fn affordable(
    candidates: Seq<Candidate>,
    sequence: Seq<usize>,
    budget: BudgetModel,
    used: int,
) -> Seq<Candidate>
    decreases candidates.len(),
{
    if candidates.len() == 0 {
        seq![]
    } else {
        let next = used + cost(budget, index_at(sequence, candidates[0].position));
        if next > budget.limit {
            seq![]
        } else {
            seq![candidates[0]] + affordable(candidates.skip(1), sequence, budget, next)
        }
    }
}

/// First position of the mandatory neighborhood.
pub open spec fn near_first(origin: int) -> int {
    if origin > 0 {
        origin - 1
    } else {
        0
    }
}

/// End of the mandatory neighborhood, exclusive.
pub open spec fn near_end(origin: int, count: int) -> int {
    if origin + 1 < count {
        origin + 2
    } else {
        count
    }
}

/// Estimated bytes of the current image and of the positions `first..end` that
/// show another one.
pub open spec fn mandatory_cost(
    current: int,
    sequence: Seq<usize>,
    budget: BudgetModel,
    first: int,
    end: int,
) -> int
    decreases end - first,
{
    if first >= end {
        cost(budget, current)
    } else {
        let index = index_at(sequence, end - 1);
        mandatory_cost(current, sequence, budget, first, end - 1) + if index == current {
            0
        } else {
            cost(budget, index)
        }
    }
}

/// The mandatory Full selections: the current image and the positions
/// `first..end` that show another one.
pub open spec fn mandatory_full(
    current: int,
    origin: int,
    forward: bool,
    sequence: Seq<usize>,
    first: int,
    end: int,
) -> Seq<FullSelection>
    decreases end - first,
{
    if first >= end {
        seq![
            FullSelection { index: current as usize, effective_distance: 0, required: true },
        ]
    } else {
        let index = index_at(sequence, end - 1);
        let rest = mandatory_full(current, origin, forward, sequence, first, end - 1);
        if index == current {
            rest
        } else {
            rest.push(
                FullSelection {
                    index: index as usize,
                    effective_distance: effective(end - 1, origin, forward) as u32,
                    required: true,
                },
            )
        }
    }
}

/// The candidates that the Full budget admits beside the mandatory working set.
pub open spec fn optional_full(
    current: int,
    origin: int,
    count: int,
    forward: bool,
    sequence: Seq<usize>,
    budget: BudgetModel,
) -> Seq<Candidate> {
    affordable(
        wave(origin, count, forward, 2, 2),
        sequence,
        budget,
        mandatory_cost(current, sequence, budget, near_first(origin), near_end(origin, count)),
    )
}

/// The candidates that the Browse budget admits inside the interactive window.
pub open spec fn optional_browse(
    current: int,
    origin: int,
    count: int,
    forward: bool,
    sequence: Seq<usize>,
    budget: BudgetModel,
) -> Seq<Candidate> {
    affordable(
        within_window(wave(origin, count, forward, 2, 2)),
        sequence,
        budget,
        mandatory_cost(current, sequence, budget, near_first(origin), near_end(origin, count)),
    )
}

/// Folder index and effective distance of each candidate.
pub open spec fn browse_selections(sequence: Seq<usize>, candidates: Seq<Candidate>) -> Seq<
    (usize, u32),
> {
    Seq::new(
        candidates.len(),
        |i: int|
            (
                index_at(sequence, candidates[i].position) as usize,
                candidates[i].distance as u32,
            ),
    )
}

/// The optional Full selection of each candidate.
pub open spec fn full_selections(sequence: Seq<usize>, candidates: Seq<Candidate>) -> Seq<
    FullSelection,
> {
    Seq::new(
        candidates.len(),
        |i: int|
            FullSelection {
                index: index_at(sequence, candidates[i].position) as usize,
                effective_distance: candidates[i].distance as u32,
                required: false,
            },
    )
}

/// The Full working set around `origin`: the mandatory selections, then those
/// that the budget admits.
pub open spec fn full_working_set(
    len: nat,
    current: int,
    origin: int,
    forward: bool,
    sequence: Seq<usize>,
    budget: BudgetModel,
) -> Seq<FullSelection> {
    let count = ordered_len(len, sequence) as int;
    mandatory_full(
        current,
        origin,
        forward,
        sequence,
        near_first(origin),
        near_end(origin, count),
    ) + full_selections(
        sequence,
        optional_full(current, origin, count, forward, sequence, budget),
    )
}

/// The Browse and Full targets of the mandatory neighbors in `first..end`.
pub open spec fn near_targets(
    current: int,
    origin: int,
    forward: bool,
    sequence: Seq<usize>,
    first: int,
    end: int,
) -> Seq<PlanTarget>
    decreases end - first,
{
    if first >= end {
        seq![]
    } else {
        let index = index_at(sequence, end - 1);
        let distance = effective(end - 1, origin, forward);
        let rest = near_targets(current, origin, forward, sequence, first, end - 1);
        if index == current {
            rest
        } else {
            rest + seq![
                display(index, Tier::Browse, 2, distance),
                display(index, Tier::Full, 2, distance),
            ]
        }
    }
}

/// The Browse targets of the admitted candidates.
pub open spec fn browse_targets(sequence: Seq<usize>, candidates: Seq<Candidate>) -> Seq<
    PlanTarget,
> {
    Seq::new(
        candidates.len(),
        |i: int|
            display(
                index_at(sequence, candidates[i].position),
                Tier::Browse,
                4,
                candidates[i].distance,
            ),
    )
}

/// The speculative Full targets of the admitted candidates.
pub open spec fn prefetch_targets(sequence: Seq<usize>, candidates: Seq<Candidate>) -> Seq<
    PlanTarget,
> {
    Seq::new(
        candidates.len(),
        |i: int|
            PlanTarget {
                index: index_at(sequence, candidates[i].position) as usize,
                tier: Tier::Full,
                class: 5,
                effective_distance: candidates[i].distance as u32,
                kind: PlanKind::Prefetch,
            },
    )
}

/// The adaptive navigation wave around `origin`: the current image, its
/// neighbors, the Browse prefix, the Full prefix, and the warm targets where
/// they are asked for.
pub open spec fn adaptive_plan(
    len: nat,
    current: int,
    origin: int,
    forward: bool,
    zoomed: bool,
    sequence: Seq<usize>,
    full: BudgetModel,
    browse: BudgetModel,
    include_warm: bool,
) -> Seq<PlanTarget> {
    let count = ordered_len(len, sequence) as int;
    current_targets(current, zoomed) + near_targets(
        current,
        origin,
        forward,
        sequence,
        near_first(origin),
        near_end(origin, count),
    ) + browse_targets(
        sequence,
        optional_browse(current, origin, count, forward, sequence, browse),
    ) + prefetch_targets(
        sequence,
        optional_full(current, origin, count, forward, sequence, full),
    ) + if include_warm {
        warm_targets(current, forward, len as int)
    } else {
        seq![]
    }
}

/// The position of a display order that `distance` steps lead to, if any.
fn position_at(origin: usize, distance: usize, up: bool, count: usize) -> (position: Option<usize>)
    ensures
        match position {
            Some(p) => p == step_from(origin as int, distance as int, up) && p < count,
            None => !(0 <= step_from(origin as int, distance as int, up) < count),
        },
{
    let position: Option<usize> = if up {
        origin.checked_add(distance)
    } else {
        origin.checked_sub(distance)
    };
    match position {
        Some(p) => if p < count {
            Some(p)
        } else {
            None
        },
        None => None,
    }
}

fn clamp_distance(distance: usize) -> (clamped: u32)
    ensures
        clamped == clamp_u32(distance as int),
{
    if distance > u32::MAX as usize {
        u32::MAX
    } else {
        distance as u32
    }
}

fn triple(distance: u32) -> (tripled: u32)
    ensures
        tripled == clamp_u32(3 * distance),
{
    if distance > u32::MAX / 3 {
        u32::MAX
    } else {
        distance * 3
    }
}

/// Takes the next candidate of the wave, advancing the side it came from.
fn next_in_wave(
    origin: usize,
    count: usize,
    forward: bool,
    ahead: &mut usize,
    behind: &mut usize,
) -> (next: Option<(usize, u32)>)
    requires
        origin < count,
        *old(ahead) <= count,
        *old(behind) <= count,
    ensures
        *final(ahead) <= count,
        *final(behind) <= count,
        *old(ahead) <= *final(ahead),
        *old(behind) <= *final(behind),
        ({
            let candidates = wave(
                origin as int,
                count as int,
                forward,
                *old(ahead) as int,
                *old(behind) as int,
            );
            match next {
                Some((position, distance)) => {
                    &&& position < count
                    &&& *final(ahead) + *final(behind) == *old(ahead) + *old(behind) + 1
                    &&& candidates == seq![
                        Candidate { position: position as int, distance: distance as int },
                    ] + wave(
                        origin as int,
                        count as int,
                        forward,
                        *final(ahead) as int,
                        *final(behind) as int,
                    )
                },
                None => candidates.len() == 0,
            }
        }),
{
    let ahead_position = position_at(origin, *ahead, forward, count);
    let behind_position = position_at(origin, *behind, !forward, count);
    match (ahead_position, behind_position) {
        (None, None) => None,
        (Some(position), None) => {
            let distance = clamp_distance(*ahead);
            *ahead = *ahead + 1;
            Some((position, distance))
        },
        (None, Some(position)) => {
            let distance = triple(clamp_distance(*behind));
            *behind = *behind + 1;
            Some((position, distance))
        },
        (Some(near), Some(far)) => {
            if *behind > usize::MAX / 3 || *ahead <= *behind * 3 {
                let distance = clamp_distance(*ahead);
                *ahead = *ahead + 1;
                Some((near, distance))
            } else {
                let distance = triple(clamp_distance(*behind));
                *behind = *behind + 1;
                Some((far, distance))
            }
        },
    }
}

fn index_at_position(sequence: &[usize], position: usize) -> (index: usize)
    requires
        sequence@.len() == 0 || position < sequence@.len(),
    ensures
        index == index_at(sequence@, position as int),
{
    if sequence.len() == 0 {
        position
    } else {
        sequence[position]
    }
}

proof fn lemma_affordable_step(
    candidates: Seq<Candidate>,
    head: Candidate,
    tail: Seq<Candidate>,
    sequence: Seq<usize>,
    budget: BudgetModel,
    used: int,
)
    requires
        candidates == seq![head] + tail,
    ensures
        ({
            let next = used + cost(budget, index_at(sequence, head.position));
            affordable(candidates, sequence, budget, used) == if next > budget.limit {
                seq![]
            } else {
                seq![head] + affordable(tail, sequence, budget, next)
            }
        }),
        within_window(candidates) == if head.distance > BROWSE_WINDOW {
            seq![]
        } else {
            seq![head] + within_window(tail)
        },
{
    assert(candidates.skip(1) =~= tail);
    assert(candidates[0] == head);
}

/// `value` as far as a 64-bit sum can show it.
spec fn clamp_u64(value: int) -> int {
    if value > u64::MAX {
        u64::MAX as int
    } else {
        value
    }
}

fn adaptive_browse_selections(
    len: usize,
    current: usize,
    current_position: usize,
    direction: i8,
    sequence: &[usize],
    budget: &BrowsePrefetchBudget,
) -> (selected: Vec<(usize, u32)>)
    requires
        len > 0,
        current_position < ordered_len(len as nat, sequence@),
    ensures
        selected@ == browse_selections(
            sequence@,
            optional_browse(
                current as int,
                current_position as int,
                ordered_len(len as nat, sequence@) as int,
                direction >= 0,
                sequence@,
                budget@,
            ),
        ),
{
    let count: usize = if sequence.len() == 0 {
        len
    } else {
        sequence.len()
    };
    let forward: bool = direction >= 0;
    let first: usize = current_position.saturating_sub(1);
    let end: usize = if current_position + 1 < count {
        current_position + 2
    } else {
        count
    };
    let mut used: u64 = budget.bytes_for(current);
    let mut position: usize = first;
    while position < end
        invariant
            first <= position <= end <= count,
            count == ordered_len(len as nat, sequence@),
            used == clamp_u64(
                mandatory_cost(
                    current as int,
                    sequence@,
                    budget@,
                    first as int,
                    position as int,
                ),
            ),
        decreases end - position,
    {
        let index: usize = index_at_position(sequence, position);
        if index != current {
            used = used.saturating_add(budget.bytes_for(index));
        }
        position += 1;
    }
    let mut selected: Vec<(usize, u32)> = Vec::new();
    let mut ahead: usize = 2;
    let mut behind: usize = 2;
    let ghost mut done: Seq<Candidate> = seq![];
    let ghost mut spent: int = mandatory_cost(
        current as int,
        sequence@,
        budget@,
        first as int,
        end as int,
    );
    let ghost total = optional_browse(
        current as int,
        current_position as int,
        count as int,
        forward,
        sequence@,
        budget@,
    );
    if count < 2 {
        assert(total.len() == 0);
        assert(selected@ =~= browse_selections(sequence@, total));
        return selected;
    }
    assert(total =~= done + affordable(
        within_window(wave(current_position as int, count as int, forward, 2, 2)),
        sequence@,
        budget@,
        spent,
    ));
    loop
        invariant_except_break
            total == done + affordable(
                within_window(
                    wave(
                        current_position as int,
                        count as int,
                        forward,
                        ahead as int,
                        behind as int,
                    ),
                ),
                sequence@,
                budget@,
                spent,
            ),
        invariant
            current_position < count,
            ahead <= count,
            behind <= count,
            count == ordered_len(len as nat, sequence@),
            used == clamp_u64(spent),
            selected@ =~= browse_selections(sequence@, done),
        ensures
            total == done,
        decreases 2 * count - ahead - behind,
    {
        let ghost candidates = wave(
            current_position as int,
            count as int,
            forward,
            ahead as int,
            behind as int,
        );
        let next = next_in_wave(current_position, count, forward, &mut ahead, &mut behind);
        let ghost tail = wave(
            current_position as int,
            count as int,
            forward,
            ahead as int,
            behind as int,
        );
        let (position, effective_distance) = match next {
            Some(candidate) => candidate,
            None => {
                assert(total =~= done);
                break;
            },
        };
        let ghost head = Candidate {
            position: position as int,
            distance: effective_distance as int,
        };
        proof {
            lemma_affordable_step(candidates, head, tail, sequence@, budget@, spent);
        }
        if effective_distance > BROWSE_WINDOW {
            assert(total =~= done);
            break;
        }
        let index: usize = index_at_position(sequence, position);
        let bytes: u64 = budget.bytes_for(index);
        proof {
            lemma_affordable_step(
                within_window(candidates),
                head,
                within_window(tail),
                sequence@,
                budget@,
                spent,
            );
        }
        let next_bytes: u64 = match used.checked_add(bytes) {
            Some(next_bytes) => next_bytes,
            None => {
                assert(total =~= done);
                break;
            },
        };
        if next_bytes > budget.budget_bytes {
            assert(total =~= done);
            break;
        }
        used = next_bytes;
        selected.push((index, effective_distance));
        proof {
            let earlier = done;
            done = done.push(head);
            spent = spent + bytes;
            assert(total =~= done + affordable(within_window(tail), sequence@, budget@, spent));
        }
    }
    selected
}

/// Selects the Full-resolution working set around a position of the display
/// order: the current image and its immediate neighbors whatever they cost, then
/// farther images in the order of the wave while all of them fit the budget.
pub fn adaptive_full_selections(
    len: usize,
    current: usize,
    current_position: usize,
    direction: i8,
    sequence: &[usize],
    budget: &FullPrefetchBudget,
) -> (selected: Vec<FullSelection>)
    requires
        len > 0,
        current_position < ordered_len(len as nat, sequence@),
    ensures
        selected@ == full_working_set(
            len as nat,
            current as int,
            current_position as int,
            direction >= 0,
            sequence@,
            budget@,
        ),
{
    let count: usize = if sequence.len() == 0 {
        len
    } else {
        sequence.len()
    };
    let forward: bool = direction >= 0;
    let first: usize = current_position.saturating_sub(1);
    let end: usize = if current_position + 1 < count {
        current_position + 2
    } else {
        count
    };
    let mut used: u64 = budget.bytes_for(current);
    let mut selected: Vec<FullSelection> = Vec::new();
    selected.push(FullSelection { index: current, effective_distance: 0, required: true });
    let mut position: usize = first;
    while position < end
        invariant
            first <= position <= end <= count,
            forward == (direction >= 0),
            count == ordered_len(len as nat, sequence@),
            used == clamp_u64(
                mandatory_cost(
                    current as int,
                    sequence@,
                    budget@,
                    first as int,
                    position as int,
                ),
            ),
            selected@ =~= mandatory_full(
                current as int,
                current_position as int,
                forward,
                sequence@,
                first as int,
                position as int,
            ),
        decreases end - position,
    {
        let index: usize = index_at_position(sequence, position);
        if index != current {
            let (_, effective_distance) = weighted_distance(position, current_position, direction);
            used = used.saturating_add(budget.bytes_for(index));
            selected.push(FullSelection { index, effective_distance, required: true });
        }
        position += 1;
    }
    let ghost mandatory = selected@;
    let mut ahead: usize = 2;
    let mut behind: usize = 2;
    let ghost mut done: Seq<Candidate> = seq![];
    let ghost mut spent: int = mandatory_cost(
        current as int,
        sequence@,
        budget@,
        first as int,
        end as int,
    );
    let ghost total = optional_full(
        current as int,
        current_position as int,
        count as int,
        forward,
        sequence@,
        budget@,
    );
    if count < 2 {
        assert(total.len() == 0);
        assert(selected@ =~= mandatory + full_selections(sequence@, total));
        return selected;
    }
    assert(total =~= done + affordable(
        wave(current_position as int, count as int, forward, 2, 2),
        sequence@,
        budget@,
        spent,
    ));
    loop
        invariant_except_break
            total == done + affordable(
                wave(
                    current_position as int,
                    count as int,
                    forward,
                    ahead as int,
                    behind as int,
                ),
                sequence@,
                budget@,
                spent,
            ),
        invariant
            current_position < count,
            ahead <= count,
            behind <= count,
            count == ordered_len(len as nat, sequence@),
            used == clamp_u64(spent),
            selected@ =~= mandatory + full_selections(sequence@, done),
        ensures
            total == done,
        decreases 2 * count - ahead - behind,
    {
        let ghost candidates = wave(
            current_position as int,
            count as int,
            forward,
            ahead as int,
            behind as int,
        );
        let next = next_in_wave(current_position, count, forward, &mut ahead, &mut behind);
        let ghost tail = wave(
            current_position as int,
            count as int,
            forward,
            ahead as int,
            behind as int,
        );
        let (position, effective_distance) = match next {
            Some(candidate) => candidate,
            None => {
                assert(total =~= done);
                break;
            },
        };
        let ghost head = Candidate {
            position: position as int,
            distance: effective_distance as int,
        };
        let index: usize = index_at_position(sequence, position);
        let bytes: u64 = budget.bytes_for(index);
        proof {
            lemma_affordable_step(candidates, head, tail, sequence@, budget@, spent);
        }
        let next_bytes: u64 = match used.checked_add(bytes) {
            Some(next_bytes) => next_bytes,
            None => {
                assert(total =~= done);
                break;
            },
        };
        if next_bytes > budget.budget_bytes {
            assert(total =~= done);
            break;
        }
        used = next_bytes;
        selected.push(FullSelection { index, effective_distance, required: false });
        proof {
            done = done.push(head);
            spent = spent + bytes;
            assert(total =~= done + affordable(tail, sequence@, budget@, spent));
        }
    }
    selected
}

// ---------------------------------------------------------------------------
// The adaptive plan
// ---------------------------------------------------------------------------

/// A filtered sequence without out-of-range entries and without later
/// duplicates.
pub open spec fn normalized(len: nat, sequence: Seq<usize>) -> Seq<usize>
    decreases sequence.len(),
{
    if sequence.len() == 0 {
        seq![]
    } else {
        let rest = normalized(len, sequence.drop_last());
        if sequence.last() < len && !rest.contains(sequence.last()) {
            rest.push(sequence.last())
        } else {
            rest
        }
    }
}

/// Drops out-of-range entries and later duplicates of a filtered sequence,
/// preserving the first occurrence of each index.
pub(crate) fn normalize_filtered_sequence(len: usize, sequence: &[usize]) -> (order: Vec<usize>)
    ensures
        order@ == normalized(len as nat, sequence@),
{
    let mut seen: HashSet<usize> = HashSet::new();
    let mut order: Vec<usize> = Vec::new();
    let mut i: usize = 0;
    assert(sequence@.take(0) =~= seq![]);
    while i < sequence.len()
        invariant
            i <= sequence@.len(),
            order@ == normalized(len as nat, sequence@.take(i as int)),
            forall|index: usize| #[trigger] seen@.contains(index) <==> order@.contains(index),
        decreases sequence@.len() - i,
    {
        let index: usize = sequence[i];
        let ghost before = order@;
        assert(sequence@.take(i + 1).drop_last() =~= sequence@.take(i as int));
        if index < len && seen.insert(index) {
            order.push(index);
            assert forall|other: usize| #[trigger] seen@.contains(other) <==> order@.contains(
                other,
            ) by {
                lemma_push_contains(before, index, other);
            }
        }
        i += 1;
    }
    assert(sequence@.take(i as int) =~= sequence@);
    order
}

proof fn lemma_push_contains(order: Seq<usize>, added: usize, index: usize)
    ensures
        order.push(added).contains(index) <==> order.contains(index) || index == added,
{
    let pushed = order.push(added);
    if order.contains(index) {
        let i = choose|i: int| 0 <= i < order.len() && order[i] == index;
        assert(pushed[i] == index);
    }
    if index == added {
        assert(pushed[order.len() as int] == index);
    }
    if pushed.contains(index) && index != added {
        let i = choose|i: int| 0 <= i < pushed.len() && pushed[i] == index;
        assert(order[i] == index);
    }
}

proof fn lemma_mandatory_is_required(
    current: int,
    origin: int,
    forward: bool,
    sequence: Seq<usize>,
    first: int,
    end: int,
)
    ensures
        forall|i: int|
            0 <= i < mandatory_full(current, origin, forward, sequence, first, end).len() ==> (
            #[trigger] mandatory_full(current, origin, forward, sequence, first, end)[i]).required,
    decreases end - first,
{
    if first < end {
        lemma_mandatory_is_required(current, origin, forward, sequence, first, end - 1);
        let rest = mandatory_full(current, origin, forward, sequence, first, end - 1);
        let all = mandatory_full(current, origin, forward, sequence, first, end);
        assert forall|i: int| 0 <= i < all.len() implies (#[trigger] all[i]).required by {
            if i < rest.len() {
                assert(all[i] == rest[i]);
            }
        }
    }
}

fn push_near_targets(
    targets: &mut Vec<PlanTarget>,
    len: usize,
    current: usize,
    current_position: usize,
    direction: i8,
    sequence: &[usize],
)
    requires
        current_position < ordered_len(len as nat, sequence@),
    ensures
        final(targets)@ == old(targets)@ + near_targets(
            current as int,
            current_position as int,
            direction >= 0,
            sequence@,
            near_first(current_position as int),
            near_end(current_position as int, ordered_len(len as nat, sequence@) as int),
        ),
{
    let count: usize = if sequence.len() == 0 {
        len
    } else {
        sequence.len()
    };
    let first: usize = current_position.saturating_sub(1);
    let end: usize = if current_position + 1 < count {
        current_position + 2
    } else {
        count
    };
    let mut position: usize = first;
    while position < end
        invariant
            first <= position <= end <= count,
            count == ordered_len(len as nat, sequence@),
            targets@ =~= old(targets)@ + near_targets(
                current as int,
                current_position as int,
                direction >= 0,
                sequence@,
                first as int,
                position as int,
            ),
        decreases end - position,
    {
        let index: usize = index_at_position(sequence, position);
        if index != current {
            let (_, effective_distance) = weighted_distance(position, current_position, direction);
            targets.push(
                PlanTarget {
                    index,
                    tier: Tier::Browse,
                    class: 2,
                    effective_distance,
                    kind: PlanKind::Display,
                },
            );
            targets.push(
                PlanTarget {
                    index,
                    tier: Tier::Full,
                    class: 2,
                    effective_distance,
                    kind: PlanKind::Display,
                },
            );
        }
        position += 1;
    }
}

fn push_browse_targets(
    targets: &mut Vec<PlanTarget>,
    browse: Vec<(usize, u32)>,
    sequence: &[usize],
    Ghost(candidates): Ghost<Seq<Candidate>>,
)
    requires
        browse@ == browse_selections(sequence@, candidates),
    ensures
        final(targets)@ == old(targets)@ + browse_targets(sequence@, candidates),
{
    let mut i: usize = 0;
    while i < browse.len()
        invariant
            i <= browse@.len(),
            browse@ == browse_selections(sequence@, candidates),
            targets@ =~= old(targets)@ + browse_targets(sequence@, candidates.take(i as int)),
        decreases browse@.len() - i,
    {
        let (index, effective_distance) = browse[i];
        targets.push(
            PlanTarget {
                index,
                tier: Tier::Browse,
                class: 4,
                effective_distance,
                kind: PlanKind::Display,
            },
        );
        i += 1;
    }
    assert(candidates.take(i as int) =~= candidates);
}

fn push_prefetch_targets(
    targets: &mut Vec<PlanTarget>,
    full: Vec<FullSelection>,
    sequence: &[usize],
    Ghost(mandatory): Ghost<Seq<FullSelection>>,
    Ghost(candidates): Ghost<Seq<Candidate>>,
)
    requires
        full@ == mandatory + full_selections(sequence@, candidates),
        forall|k: int| 0 <= k < mandatory.len() ==> (#[trigger] mandatory[k]).required,
    ensures
        final(targets)@ == old(targets)@ + prefetch_targets(sequence@, candidates),
{
    let mut i: usize = 0;
    while i < full.len()
        invariant
            i <= full@.len(),
            full@ == mandatory + full_selections(sequence@, candidates),
            forall|k: int| 0 <= k < mandatory.len() ==> (#[trigger] mandatory[k]).required,
            targets@ =~= old(targets)@ + prefetch_targets(
                sequence@,
                candidates.take(
                    if i < mandatory.len() {
                        0
                    } else {
                        i - mandatory.len()
                    },
                ),
            ),
        decreases full@.len() - i,
    {
        let selection: FullSelection = full[i];
        assert(i < mandatory.len() ==> selection == mandatory[i as int]);
        if !selection.required {
            targets.push(
                PlanTarget {
                    index: selection.index,
                    tier: Tier::Full,
                    class: 5,
                    effective_distance: selection.effective_distance,
                    kind: PlanKind::Prefetch,
                },
            );
        }
        i += 1;
    }
    assert(candidates.take(candidates.len() as int) =~= candidates);
}

/// Production variant for a sequence normalized once by the owning engine.
pub(crate) fn build_plan_targets_with_normalized_prefetch(
    len: usize,
    current: usize,
    direction: i8,
    zoomed: bool,
    order: (&[usize], usize),
    budgets: &NavigationPrefetchBudgets,
    include_warm: bool,
) -> (targets: Vec<PlanTarget>)
    requires
        valid_order(len as nat, order.0@),
    ensures
        targets@ == if len == 0 {
            seq![]
        } else {
            adaptive_plan(
                len as nat,
                clamp_index(len as nat, current as int),
                clamp_index(ordered_len(len as nat, order.0@), order.1 as int),
                direction >= 0,
                zoomed,
                order.0@,
                budgets.full_model(),
                budgets.browse_model(),
                include_warm,
            )
        },
{
    if len == 0 {
        return Vec::new();
    }
    let current: usize = if current < len {
        current
    } else {
        len - 1
    };
    let (sequence, position) = order;
    let count: usize = if sequence.len() == 0 {
        len
    } else {
        sequence.len()
    };
    let origin: usize = if position < count {
        position
    } else {
        count - 1
    };
    let full = adaptive_full_selections(len, current, origin, direction, sequence, &budgets.full);
    let mut targets: Vec<PlanTarget> = Vec::with_capacity(INTERACTIVE_TARGET_CAPACITY);
    push_current_targets(&mut targets, current, zoomed);
    push_near_targets(&mut targets, len, current, origin, direction, sequence);
    let browse = adaptive_browse_selections(
        len,
        current,
        origin,
        direction,
        sequence,
        &budgets.browse,
    );
    push_browse_targets(
        &mut targets,
        browse,
        sequence,
        Ghost(
            optional_browse(
                current as int,
                origin as int,
                count as int,
                direction >= 0,
                sequence@,
                budgets.browse@,
            ),
        ),
    );
    proof {
        lemma_mandatory_is_required(
            current as int,
            origin as int,
            direction >= 0,
            sequence@,
            near_first(origin as int),
            near_end(origin as int, count as int),
        );
    }
    push_prefetch_targets(
        &mut targets,
        full,
        sequence,
        Ghost(
            mandatory_full(
                current as int,
                origin as int,
                direction >= 0,
                sequence@,
                near_first(origin as int),
                near_end(origin as int, count as int),
            ),
        ),
        Ghost(
            optional_full(
                current as int,
                origin as int,
                count as int,
                direction >= 0,
                sequence@,
                budgets.full@,
            ),
        ),
    );
    if include_warm {
        push_warm_targets(&mut targets, len, current, direction);
    }
    targets
}

/// Build the production navigation wave with an adaptive Full-resolution
/// working set.
///
/// The Browse wave remains bounded by `BROWSE_WINDOW`. Full candidates begin
/// with the current image and both immediate visible neighbors, then grow in a
/// forward-biased 3:1 wave until the next candidate would cross the byte
/// budget. Optional Full work is lower priority than the complete interactive
/// Browse wave and is identified as [`PlanKind::Prefetch`].
///
/// A filtered `sequence` ignores out-of-range entries and later duplicates
/// while preserving the first occurrence.
pub fn build_plan_targets_with_full_prefetch(
    len: usize,
    current: usize,
    direction: i8,
    zoomed: bool,
    sequence: &[usize],
    budgets: &NavigationPrefetchBudgets,
    include_warm: bool,
) -> (targets: Vec<PlanTarget>)
    ensures
        targets@ == prefetch_plan(
            len as nat,
            current as int,
            direction >= 0,
            zoomed,
            sequence@,
            budgets.full_model(),
            budgets.browse_model(),
            include_warm,
        ),
{
    if len == 0 {
        return Vec::new();
    }
    let current: usize = if current < len {
        current
    } else {
        len - 1
    };
    let order = normalize_filtered_sequence(len, sequence);
    let origin: usize = current_position(current, order.as_slice());
    proof {
        lemma_normalized(len as nat, sequence@);
        lemma_origin_in_order(len as nat, current as int, order@);
    }
    build_plan_targets_with_normalized_prefetch(
        len,
        current,
        direction,
        zoomed,
        (order.as_slice(), origin),
        budgets,
        include_warm,
    )
}

/// The adaptive navigation wave of a filtered sequence, around the current
/// image.
pub open spec fn prefetch_plan(
    len: nat,
    current: int,
    forward: bool,
    zoomed: bool,
    sequence: Seq<usize>,
    full: BudgetModel,
    browse: BudgetModel,
    include_warm: bool,
) -> Seq<PlanTarget> {
    if len == 0 {
        seq![]
    } else {
        let index = clamp_index(len, current);
        let order = normalized(len, sequence);
        adaptive_plan(
            len,
            index,
            origin_of(index, order),
            forward,
            zoomed,
            order,
            full,
            browse,
            include_warm,
        )
    }
}

/// Normalization keeps exactly the in-range indices, each of them once.
pub proof fn lemma_normalized(len: nat, sequence: Seq<usize>)
    ensures
        valid_order(len, normalized(len, sequence)),
        normalized(len, sequence).no_duplicates(),
        normalized(len, sequence).len() <= sequence.len(),
        forall|index: usize| #[trigger]
            normalized(len, sequence).contains(index) <==> index < len && sequence.contains(index),
    decreases sequence.len(),
{
    if sequence.len() > 0 {
        let rest = sequence.drop_last();
        lemma_normalized(len, rest);
        assert(sequence =~= rest.push(sequence.last()));
        assert forall|index: usize| #[trigger]
            normalized(len, sequence).contains(index) <==> index < len && sequence.contains(
            index,
        ) by {
            lemma_push_contains(rest, sequence.last(), index);
            lemma_push_contains(normalized(len, rest), sequence.last(), index);
        }
    }
}

// ---------------------------------------------------------------------------
// Laws
// ---------------------------------------------------------------------------

/// Weighted distance of a candidate before it is clamped to 32 bits.
pub open spec fn weight(position: int, origin: int, forward: bool) -> int {
    if is_ahead(position, origin, forward) {
        gap(position, origin)
    } else {
        3 * gap(position, origin)
    }
}

/// Whether `position` is `ahead` or more steps ahead of `origin`, or `behind` or
/// more steps behind it.
spec fn in_wave(
    position: int,
    origin: int,
    count: int,
    forward: bool,
    ahead: int,
    behind: int,
) -> bool {
    &&& 0 <= position < count
    &&& position != origin
    &&& if is_ahead(position, origin, forward) {
        gap(position, origin) >= ahead
    } else {
        gap(position, origin) >= behind
    }
}

proof fn lemma_wave(origin: int, count: int, forward: bool, ahead: int, behind: int)
    requires
        0 <= origin < count,
        1 <= ahead,
        1 <= behind,
    ensures
        ({
            let w = wave(origin, count, forward, ahead, behind);
            &&& forall|i: int|
                0 <= i < w.len() ==> in_wave(
                    (#[trigger] w[i]).position,
                    origin,
                    count,
                    forward,
                    ahead,
                    behind,
                ) && w[i].distance == effective(w[i].position, origin, forward)
            &&& forall|i: int, j: int|
                0 <= i < j < w.len() ==> weight((#[trigger] w[i]).position, origin, forward)
                    <= weight((#[trigger] w[j]).position, origin, forward) && w[i].position
                    != w[j].position
            &&& forall|position: int|
                in_wave(position, origin, count, forward, ahead, behind) ==> exists|i: int|
                    0 <= i < w.len() && (#[trigger] w[i]).position == position
        }),
    decreases
            (if ahead < count {
                count - ahead
            } else {
                0
            }) + (if behind < count {
                count - behind
            } else {
                0
            }),
{
    let w = wave(origin, count, forward, ahead, behind);
    let ahead_position = step_from(origin, ahead, forward);
    let behind_position = step_from(origin, behind, !forward);
    let has_ahead = 0 <= ahead_position < count;
    let has_behind = 0 <= behind_position < count;
    if has_ahead || has_behind {
        let takes_ahead = has_ahead && (!has_behind || ahead <= 3 * behind);
        let next_ahead = if takes_ahead {
            ahead + 1
        } else {
            ahead
        };
        let next_behind = if takes_ahead {
            behind
        } else {
            behind + 1
        };
        lemma_wave(origin, count, forward, next_ahead, next_behind);
        let tail = wave(origin, count, forward, next_ahead, next_behind);
        let head = w[0];
        assert(w =~= seq![head] + tail);
        assert forall|i: int| 0 <= i < w.len() implies in_wave(
            (#[trigger] w[i]).position,
            origin,
            count,
            forward,
            ahead,
            behind,
        ) && w[i].distance == effective(w[i].position, origin, forward) by {
            if i > 0 {
                assert(w[i] == tail[i - 1]);
            }
        }
        assert forall|i: int, j: int| 0 <= i < j < w.len() implies weight(
            (#[trigger] w[i]).position,
            origin,
            forward,
        ) <= weight((#[trigger] w[j]).position, origin, forward) && w[i].position
            != w[j].position by {
            assert(w[j] == tail[j - 1]);
            if i > 0 {
                assert(w[i] == tail[i - 1]);
            }
        }
        assert forall|position: int|
            in_wave(position, origin, count, forward, ahead, behind) implies exists|i: int|
            0 <= i < w.len() && (#[trigger] w[i]).position == position by {
            if position == head.position {
                assert(w[0].position == position);
            } else {
                assert(in_wave(position, origin, count, forward, next_ahead, next_behind));
                let k = choose|k: int| 0 <= k < tail.len() && (#[trigger] tail[k]).position
                    == position;
                assert(w[k + 1] == tail[k]);
            }
        }
    }
}

/// The wave visits every position beyond the immediate neighbors exactly once,
/// nearest first, when a position behind the navigation direction counts three
/// times as far.
pub proof fn law_wave_is_ordered_and_complete(origin: int, count: int, forward: bool)
    requires
        0 <= origin < count,
    ensures
        ({
            let w = wave(origin, count, forward, 2, 2);
            &&& forall|i: int|
                0 <= i < w.len() ==> 0 <= (#[trigger] w[i]).position < count && gap(
                    w[i].position,
                    origin,
                ) >= 2 && w[i].distance == effective(w[i].position, origin, forward)
            &&& forall|i: int, j: int|
                0 <= i < j < w.len() ==> weight((#[trigger] w[i]).position, origin, forward)
                    <= weight((#[trigger] w[j]).position, origin, forward) && w[i].position
                    != w[j].position
            &&& forall|position: int|
                0 <= position < count && #[trigger] gap(position, origin) >= 2 ==> exists|i: int|
                    0 <= i < w.len() && (#[trigger] w[i]).position == position
        }),
{
    lemma_wave(origin, count, forward, 2, 2);
    let w = wave(origin, count, forward, 2, 2);
    assert forall|position: int|
        0 <= position < count && #[trigger] gap(position, origin) >= 2 implies exists|i: int|
        0 <= i < w.len() && (#[trigger] w[i]).position == position by {
        assert(in_wave(position, origin, count, forward, 2, 2));
    }
}

/// Estimated bytes of the first `n` candidates.
pub open spec fn prefix_cost(
    candidates: Seq<Candidate>,
    sequence: Seq<usize>,
    budget: BudgetModel,
    n: int,
) -> int
    decreases n,
{
    if n <= 0 {
        0
    } else {
        prefix_cost(candidates, sequence, budget, n - 1) + cost(
            budget,
            index_at(sequence, candidates[n - 1].position),
        )
    }
}

proof fn lemma_prefix_cost_skip(
    candidates: Seq<Candidate>,
    sequence: Seq<usize>,
    budget: BudgetModel,
    n: int,
)
    requires
        1 <= n <= candidates.len(),
    ensures
        prefix_cost(candidates, sequence, budget, n) == cost(
            budget,
            index_at(sequence, candidates[0].position),
        ) + prefix_cost(candidates.skip(1), sequence, budget, n - 1),
    decreases n,
{
    if n > 1 {
        lemma_prefix_cost_skip(candidates, sequence, budget, n - 1);
        assert(candidates.skip(1)[n - 2] == candidates[n - 1]);
    } else {
        assert(prefix_cost(candidates, sequence, budget, 0) == 0);
        assert(prefix_cost(candidates.skip(1), sequence, budget, 0) == 0);
    }
}

/// A budget admits the longest prefix of the candidates that fits beside what
/// is already used: no nearer candidate is skipped for a farther one, whatever
/// is admitted stays within the limit, and the next candidate would cross it.
pub proof fn law_budget_admits_the_longest_affordable_prefix(
    candidates: Seq<Candidate>,
    sequence: Seq<usize>,
    budget: BudgetModel,
    used: int,
)
    ensures
        ({
            let admitted = affordable(candidates, sequence, budget, used);
            let n = admitted.len() as int;
            &&& n <= candidates.len()
            &&& admitted == candidates.take(n)
            &&& n > 0 ==> used + prefix_cost(candidates, sequence, budget, n) <= budget.limit
            &&& n < candidates.len() ==> used + prefix_cost(candidates, sequence, budget, n + 1)
                > budget.limit
        }),
    decreases candidates.len(),
{
    let admitted = affordable(candidates, sequence, budget, used);
    if candidates.len() > 0 {
        let bytes = cost(budget, index_at(sequence, candidates[0].position));
        reveal_with_fuel(prefix_cost, 2);
        if used + bytes <= budget.limit {
            let tail = candidates.skip(1);
            law_budget_admits_the_longest_affordable_prefix(tail, sequence, budget, used + bytes);
            let rest = affordable(tail, sequence, budget, used + bytes);
            let n = rest.len() as int;
            assert(admitted =~= seq![candidates[0]] + rest);
            assert(admitted =~= candidates.take(n + 1));
            lemma_prefix_cost_skip(candidates, sequence, budget, n + 1);
            if n < tail.len() {
                lemma_prefix_cost_skip(candidates, sequence, budget, n + 2);
            }
            if n == 0 {
                assert(prefix_cost(tail, sequence, budget, 0) == 0);
            }
        } else {
            assert(admitted =~= candidates.take(0));
            assert(prefix_cost(candidates, sequence, budget, 1) == bytes);
        }
    } else {
        assert(admitted =~= candidates.take(0));
    }
}

/// The Browse wave never leaves the interactive window, and nothing beyond it
/// is nearer than something inside it.
pub proof fn law_browse_wave_stays_in_window(origin: int, count: int, forward: bool)
    requires
        0 <= origin < count,
    ensures
        ({
            let w = wave(origin, count, forward, 2, 2);
            let inside = within_window(w);
            &&& inside.len() <= w.len()
            &&& inside == w.take(inside.len() as int)
            &&& forall|i: int|
                0 <= i < w.len() ==> ((#[trigger] w[i]).distance <= BROWSE_WINDOW <==> i
                    < inside.len())
        }),
{
    lemma_wave(origin, count, forward, 2, 2);
    let w = wave(origin, count, forward, 2, 2);
    assert forall|i: int, j: int| 0 <= i < j < w.len() implies (#[trigger] w[i]).distance <= (
    #[trigger] w[j]).distance by {}
    lemma_within_window(w);
}

proof fn lemma_within_window(w: Seq<Candidate>)
    requires
        forall|i: int, j: int|
            0 <= i < j < w.len() ==> (#[trigger] w[i]).distance <= (#[trigger] w[j]).distance,
    ensures
        ({
            let inside = within_window(w);
            &&& inside.len() <= w.len()
            &&& inside == w.take(inside.len() as int)
            &&& forall|i: int|
                0 <= i < w.len() ==> ((#[trigger] w[i]).distance <= BROWSE_WINDOW <==> i
                    < inside.len())
        }),
    decreases w.len(),
{
    let inside = within_window(w);
    if w.len() > 0 && w[0].distance <= BROWSE_WINDOW {
        let tail = w.skip(1);
        lemma_within_window(tail);
        let rest = within_window(tail);
        assert(inside =~= seq![w[0]] + rest);
        assert(inside =~= w.take(inside.len() as int));
        assert forall|i: int| 0 <= i < w.len() implies ((#[trigger] w[i]).distance <= BROWSE_WINDOW
            <==> i < inside.len()) by {
            if i > 0 {
                assert(w[i] == tail[i - 1]);
            }
        }
    } else {
        assert(inside =~= w.take(0));
    }
}

proof fn lemma_near_targets(
    current: int,
    origin: int,
    forward: bool,
    sequence: Seq<usize>,
    first: int,
    end: int,
    position: int,
)
    requires
        first <= position < end,
        index_at(sequence, position) != current,
    ensures
        ({
            let targets = near_targets(current, origin, forward, sequence, first, end);
            let index = index_at(sequence, position);
            let distance = effective(position, origin, forward);
            &&& targets.contains(display(index, Tier::Browse, 2, distance))
            &&& targets.contains(display(index, Tier::Full, 2, distance))
        }),
    decreases end - first,
{
    let targets = near_targets(current, origin, forward, sequence, first, end);
    let rest = near_targets(current, origin, forward, sequence, first, end - 1);
    let index = index_at(sequence, position);
    let distance = effective(position, origin, forward);
    let browse = display(index, Tier::Browse, 2, distance);
    let full = display(index, Tier::Full, 2, distance);
    if position == end - 1 {
        assert(targets[rest.len() as int] == browse);
        assert(targets[rest.len() as int + 1] == full);
    } else {
        lemma_near_targets(current, origin, forward, sequence, first, end - 1, position);
        let i = choose|i: int| 0 <= i < rest.len() && rest[i] == browse;
        let j = choose|j: int| 0 <= j < rest.len() && rest[j] == full;
        assert(targets[i] == browse);
        assert(targets[j] == full);
    }
}

/// The current image and both immediate visible neighbors are rendered in
/// Browse and Full resolution whatever the byte budgets are.
pub proof fn law_neighbors_are_mandatory(
    len: nat,
    current: int,
    origin: int,
    forward: bool,
    zoomed: bool,
    sequence: Seq<usize>,
    full: BudgetModel,
    browse: BudgetModel,
    include_warm: bool,
    position: int,
)
    requires
        0 <= origin < ordered_len(len, sequence),
        0 <= position < ordered_len(len, sequence),
        gap(position, origin) <= 1,
        index_at(sequence, position) != current,
    ensures
        ({
            let targets = adaptive_plan(
                len,
                current,
                origin,
                forward,
                zoomed,
                sequence,
                full,
                browse,
                include_warm,
            );
            let index = index_at(sequence, position);
            let distance = effective(position, origin, forward);
            &&& targets.len() >= 2
            &&& targets.take(2) == current_targets(current, zoomed)
            &&& targets.contains(display(index, Tier::Browse, 2, distance))
            &&& targets.contains(display(index, Tier::Full, 2, distance))
        }),
{
    let count = ordered_len(len, sequence) as int;
    let targets = adaptive_plan(
        len,
        current,
        origin,
        forward,
        zoomed,
        sequence,
        full,
        browse,
        include_warm,
    );
    let near = near_targets(
        current,
        origin,
        forward,
        sequence,
        near_first(origin),
        near_end(origin, count),
    );
    let index = index_at(sequence, position);
    let distance = effective(position, origin, forward);
    lemma_near_targets(
        current,
        origin,
        forward,
        sequence,
        near_first(origin),
        near_end(origin, count),
        position,
    );
    let i = choose|i: int|
        0 <= i < near.len() && near[i] == display(index, Tier::Browse, 2, distance);
    let j = choose|j: int| 0 <= j < near.len() && near[j] == display(index, Tier::Full, 2, distance);
    assert(targets[2 + i] == near[i]);
    assert(targets[2 + j] == near[j]);
    assert(targets.take(2) =~= current_targets(current, zoomed));
}

/// What the kind of a target says of its tier and priority: speculative Full
/// work ranks below every display target, and warm work ranks below both and
/// lies outside the interactive window.
pub open spec fn target_ranked(target: PlanTarget) -> bool {
    match target.kind {
        PlanKind::Display => target.class <= 4,
        PlanKind::Prefetch => target.class == 5 && target.tier == Tier::Full,
        PlanKind::Warm => target.class == 6 && target.tier == Tier::Browse
            && target.effective_distance > BROWSE_WINDOW,
    }
}

/// Whether a target is ranked by its kind and names an image of the folder.
pub open spec fn target_sound(len: nat, target: PlanTarget) -> bool {
    target_ranked(target) && target.index < len
}

/// Whether every target is ranked by its kind and names an image of the folder.
pub open spec fn all_sound(len: nat, targets: Seq<PlanTarget>) -> bool {
    forall|i: int| 0 <= i < targets.len() ==> target_sound(len, #[trigger] targets[i])
}

proof fn lemma_all_sound_add(len: nat, first: Seq<PlanTarget>, second: Seq<PlanTarget>)
    requires
        all_sound(len, first),
        all_sound(len, second),
    ensures
        all_sound(len, first + second),
{
    let all = first + second;
    assert forall|i: int| 0 <= i < all.len() implies target_sound(len, #[trigger] all[i]) by {
        if i < first.len() {
            assert(all[i] == first[i]);
        } else {
            assert(all[i] == second[i - first.len()]);
        }
    }
}

proof fn lemma_candidates_sound(len: nat, order: Seq<usize>, candidates: Seq<Candidate>)
    requires
        valid_order(len, order),
        len <= usize::MAX,
        forall|i: int|
            0 <= i < candidates.len() ==> 0 <= (#[trigger] candidates[i]).position < ordered_len(
                len,
                order,
            ),
    ensures
        all_sound(len, browse_targets(order, candidates)),
        all_sound(len, prefetch_targets(order, candidates)),
{
}

proof fn lemma_warm_sound(len: nat, current: int, forward: bool, end: int)
    requires
        end <= len <= usize::MAX,
    ensures
        all_sound(len, warm_targets(current, forward, end)),
    decreases end,
{
    if end > 0 {
        lemma_warm_sound(len, current, forward, end - 1);
        let rest = warm_targets(current, forward, end - 1);
        let all = warm_targets(current, forward, end);
        assert forall|i: int| 0 <= i < all.len() implies target_sound(len, #[trigger] all[i]) by {
            if i < rest.len() {
                assert(all[i] == rest[i]);
            }
        }
    }
}

proof fn lemma_scan_sound(
    len: nat,
    current: int,
    origin: int,
    forward: bool,
    sequence: Seq<usize>,
    first: int,
    end: int,
)
    requires
        0 <= first,
        end <= ordered_len(len, sequence),
        len <= usize::MAX,
    ensures
        all_sound(len, scan_targets(len, current, origin, forward, sequence, first, end)),
    decreases end - first,
{
    if first < end {
        lemma_scan_sound(len, current, origin, forward, sequence, first, end - 1);
        let rest = scan_targets(len, current, origin, forward, sequence, first, end - 1);
        let all = scan_targets(len, current, origin, forward, sequence, first, end);
        assert forall|i: int| 0 <= i < all.len() implies target_sound(len, #[trigger] all[i]) by {
            if i < rest.len() {
                assert(all[i] == rest[i]);
            }
        }
    }
}

proof fn lemma_near_sound(
    len: nat,
    current: int,
    origin: int,
    forward: bool,
    sequence: Seq<usize>,
    first: int,
    end: int,
)
    requires
        0 <= first,
        end <= ordered_len(len, sequence),
        valid_order(len, sequence),
        len <= usize::MAX,
    ensures
        all_sound(len, near_targets(current, origin, forward, sequence, first, end)),
    decreases end - first,
{
    if first < end {
        lemma_near_sound(len, current, origin, forward, sequence, first, end - 1);
        let rest = near_targets(current, origin, forward, sequence, first, end - 1);
        let all = near_targets(current, origin, forward, sequence, first, end);
        assert forall|i: int| 0 <= i < all.len() implies target_sound(len, #[trigger] all[i]) by {
            if i < rest.len() {
                assert(all[i] == rest[i]);
            }
        }
    }
}

/// Every target of a plain navigation wave names an image of the folder, and
/// its class follows its kind.
pub proof fn law_plan_is_sound(
    len: nat,
    current: int,
    forward: bool,
    zoomed: bool,
    sequence: Seq<usize>,
    include_warm: bool,
)
    requires
        len <= usize::MAX,
        0 <= current,
    ensures
        all_sound(len, plan(len, current, forward, zoomed, sequence, include_warm)),
{
    if len > 0 {
        let index = clamp_index(len, current);
        let origin = origin_of(index, sequence);
        lemma_origin_in_order(len, index, sequence);
        let count = ordered_len(len, sequence) as int;
        lemma_scan_sound(len, index, origin, forward, sequence, 0, count);
        lemma_warm_sound(len, index, forward, len as int);
        let head = current_targets(index, zoomed);
        let scan = scan_targets(len, index, origin, forward, sequence, 0, count);
        assert(all_sound(len, head));
        lemma_all_sound_add(len, head, scan);
        lemma_all_sound_add(
            len,
            head + scan,
            if include_warm {
                warm_targets(index, forward, len as int)
            } else {
                seq![]
            },
        );
    }
}

/// Every target of an adaptive navigation wave names an image of the folder.
/// Optional Full work ranks below the complete interactive Browse wave.
pub proof fn law_prefetch_plan_is_sound(
    len: nat,
    current: int,
    forward: bool,
    zoomed: bool,
    sequence: Seq<usize>,
    full: BudgetModel,
    browse: BudgetModel,
    include_warm: bool,
)
    requires
        len <= usize::MAX,
        0 <= current,
    ensures
        ({
            let targets = prefetch_plan(
                len,
                current,
                forward,
                zoomed,
                sequence,
                full,
                browse,
                include_warm,
            );
            all_sound(len, targets)
        }),
{
    if len > 0 {
        let index = clamp_index(len, current);
        let order = normalized(len, sequence);
        lemma_normalized(len, sequence);
        lemma_origin_in_order(len, index, order);
        let origin = origin_of(index, order);
        let count = ordered_len(len, order) as int;
        lemma_wave(origin, count, forward, 2, 2);
        let w = wave(origin, count, forward, 2, 2);
        law_browse_wave_stays_in_window(origin, count, forward);
        let mandatory_browse = mandatory_cost(
            index,
            order,
            browse,
            near_first(origin),
            near_end(origin, count),
        );
        let mandatory = mandatory_cost(
            index,
            order,
            full,
            near_first(origin),
            near_end(origin, count),
        );
        law_budget_admits_the_longest_affordable_prefix(
            within_window(w),
            order,
            browse,
            mandatory_browse,
        );
        law_budget_admits_the_longest_affordable_prefix(w, order, full, mandatory);
        let browse_part = optional_browse(index, origin, count, forward, order, browse);
        let full_part = optional_full(index, origin, count, forward, order, full);
        let near = near_targets(
            index,
            origin,
            forward,
            order,
            near_first(origin),
            near_end(origin, count),
        );
        assert forall|i: int| 0 <= i < browse_part.len() implies 0 <= (
        #[trigger] browse_part[i]).position < count by {
            assert(browse_part[i] == w[i]);
        }
        assert forall|i: int| 0 <= i < full_part.len() implies 0 <= (
        #[trigger] full_part[i]).position < count by {
            assert(full_part[i] == w[i]);
        }
        lemma_near_sound(
            len,
            index,
            origin,
            forward,
            order,
            near_first(origin),
            near_end(origin, count),
        );
        lemma_candidates_sound(len, order, browse_part);
        lemma_candidates_sound(len, order, full_part);
        lemma_warm_sound(len, index, forward, len as int);
        let head = current_targets(index, zoomed);
        assert(all_sound(len, head));
        lemma_all_sound_add(len, head, near);
        lemma_all_sound_add(len, head + near, browse_targets(order, browse_part));
        lemma_all_sound_add(
            len,
            head + near + browse_targets(order, browse_part),
            prefetch_targets(order, full_part),
        );
        lemma_all_sound_add(
            len,
            head + near + browse_targets(order, browse_part) + prefetch_targets(order, full_part),
            if include_warm {
                warm_targets(index, forward, len as int)
            } else {
                seq![]
            },
        );
    }
}

/// A filtered sequence without a single index of the folder plans like the
/// identity order.
pub proof fn law_all_invalid_is_identity(
    len: nat,
    current: int,
    forward: bool,
    zoomed: bool,
    sequence: Seq<usize>,
    full: BudgetModel,
    browse: BudgetModel,
    include_warm: bool,
)
    requires
        forall|i: int| 0 <= i < sequence.len() ==> #[trigger] sequence[i] >= len,
    ensures
        prefetch_plan(len, current, forward, zoomed, sequence, full, browse, include_warm)
            == prefetch_plan(len, current, forward, zoomed, seq![], full, browse, include_warm),
{
    lemma_normalized(len, sequence);
    let order = normalized(len, sequence);
    if order.len() > 0 {
        assert(order.contains(order[0]));
    }
    assert(order =~= normalized(len, seq![]));
}

/// A display order that names images of the folder only, each once, is left as it is.
pub proof fn lemma_normalized_fixed(len: nat, order: Seq<usize>)
    requires
        valid_order(len, order),
        order.no_duplicates(),
    ensures
        normalized(len, order) == order,
    decreases order.len(),
{
    if order.len() > 0 {
        let rest = order.drop_last();
        lemma_normalized_fixed(len, rest);
        assert(!rest.contains(order.last()));
        assert(order =~= rest.push(order.last()));
        assert(order.last() == order[order.len() - 1]);
    } else {
        assert(order =~= normalized(len, order));
    }
}

/// Out-of-range entries and later duplicates never change the plan: a sequence
/// and its normalization plan alike.
pub proof fn law_noise_in_the_sequence_is_ignored(
    len: nat,
    current: int,
    forward: bool,
    zoomed: bool,
    sequence: Seq<usize>,
    full: BudgetModel,
    browse: BudgetModel,
    include_warm: bool,
)
    ensures
        normalized(len, normalized(len, sequence)) == normalized(len, sequence),
        prefetch_plan(len, current, forward, zoomed, sequence, full, browse, include_warm)
            == prefetch_plan(
            len,
            current,
            forward,
            zoomed,
            normalized(len, sequence),
            full,
            browse,
            include_warm,
        ),
{
    lemma_normalized(len, sequence);
    lemma_normalized_fixed(len, normalized(len, sequence));
}

proof fn lemma_scan_len(
    len: nat,
    current: int,
    origin: int,
    forward: bool,
    sequence: Seq<usize>,
    first: int,
    end: int,
)
    requires
        first <= end,
    ensures
        scan_targets(len, current, origin, forward, sequence, first, end).len() <= (end - first)
            + if end <= origin - 1 {
            0int
        } else if end >= origin + 2 {
            3
        } else {
            end - origin + 1
        } - if first <= origin < end && index_at(sequence, origin) == current {
            2int
        } else {
            0
        },
    decreases end - first,
{
    if first < end {
        lemma_scan_len(len, current, origin, forward, sequence, first, end - 1);
    }
}

/// Without warm targets a wave is bounded by the interactive windows, however
/// large the folder is: the current image and both immediate neighbors twice,
/// and thirty further images once.
pub proof fn law_interactive_wave_is_bounded(
    len: nat,
    current: int,
    forward: bool,
    zoomed: bool,
    sequence: Seq<usize>,
)
    requires
        len <= usize::MAX,
        0 <= current,
    ensures
        plan(len, current, forward, zoomed, sequence, false).len() <= 36,
{
    if len > 0 {
        let index = clamp_index(len, current);
        let origin = origin_of(index, sequence);
        lemma_origin_in_order(len, index, sequence);
        let count = ordered_len(len, sequence) as int;
        let before = if forward {
            8int
        } else {
            24int
        };
        let after = if forward {
            24int
        } else {
            8int
        };
        let first = if origin < before {
            0
        } else {
            origin - before
        };
        let last = if origin + after < count - 1 {
            origin + after
        } else {
            count - 1
        };
        lemma_window(len, index, origin, forward, sequence, first, last, count);
        lemma_scan_len(len, index, origin, forward, sequence, first, last + 1);
        if sequence.len() > 0 {
            sequence.index_of_first_ensures(index as usize);
        }
    }
}

proof fn lemma_affordable_extends(
    candidates: Seq<Candidate>,
    sequence: Seq<usize>,
    budget: BudgetModel,
    larger: BudgetModel,
    used: int,
)
    requires
        budget.limit <= larger.limit,
        budget.fallback == larger.fallback,
        budget.known == larger.known,
    ensures
        affordable(candidates, sequence, budget, used).is_prefix_of(
            affordable(candidates, sequence, larger, used),
        ),
    decreases candidates.len(),
{
    if candidates.len() > 0 {
        let index = index_at(sequence, candidates[0].position);
        let next = used + cost(budget, index);
        assert(cost(larger, index) == cost(budget, index));
        if next <= budget.limit {
            let tail = candidates.skip(1);
            lemma_affordable_extends(tail, sequence, budget, larger, next);
            let few = affordable(tail, sequence, budget, next);
            let many = affordable(tail, sequence, larger, next);
            let n = few.len() as int + 1;
            assert((seq![candidates[0]] + few) =~= (seq![candidates[0]] + many).take(n)) by {
                assert forall|i: int| 0 <= i < n implies (seq![candidates[0]] + few)[i] == (
                seq![candidates[0]] + many)[i] by {
                    if i > 0 {
                        assert(few[i - 1] == many[i - 1]);
                    }
                }
            }
        }
    }
}

proof fn lemma_mandatory_cost_agrees(
    current: int,
    sequence: Seq<usize>,
    budget: BudgetModel,
    other: BudgetModel,
    first: int,
    end: int,
)
    requires
        forall|index: int| #[trigger] cost(budget, index) == cost(other, index),
    ensures
        mandatory_cost(current, sequence, budget, first, end) == mandatory_cost(
            current,
            sequence,
            other,
            first,
            end,
        ),
    decreases end - first,
{
    if first < end {
        lemma_mandatory_cost_agrees(current, sequence, budget, other, first, end - 1);
    }
}

proof fn lemma_optional_full_extends(
    current: int,
    origin: int,
    count: int,
    forward: bool,
    sequence: Seq<usize>,
    full: BudgetModel,
    larger: BudgetModel,
)
    requires
        full.limit <= larger.limit,
        full.fallback == larger.fallback,
        full.known == larger.known,
    ensures
        optional_full(current, origin, count, forward, sequence, full).is_prefix_of(
            optional_full(current, origin, count, forward, sequence, larger),
        ),
{
    let first = near_first(origin);
    let end = near_end(origin, count);
    assert forall|i: int| #[trigger] cost(full, i) == cost(larger, i) by {}
    lemma_mandatory_cost_agrees(current, sequence, full, larger, first, end);
    lemma_affordable_extends(
        wave(origin, count, forward, 2, 2),
        sequence,
        full,
        larger,
        mandatory_cost(current, sequence, full, first, end),
    );
}

/// A larger Full budget only extends the selection: with the same estimates, the
/// working set of the smaller budget is a prefix of that of the larger one.
pub proof fn law_larger_full_budget_extends_the_selection(
    len: nat,
    current: int,
    origin: int,
    forward: bool,
    sequence: Seq<usize>,
    full: BudgetModel,
    larger: BudgetModel,
)
    requires
        full.limit <= larger.limit,
        full.fallback == larger.fallback,
        full.known == larger.known,
    ensures
        full_working_set(len, current, origin, forward, sequence, full).is_prefix_of(
            full_working_set(len, current, origin, forward, sequence, larger),
        ),
{
    let count = ordered_len(len, sequence) as int;
    lemma_optional_full_extends(current, origin, count, forward, sequence, full, larger);
    let few = optional_full(current, origin, count, forward, sequence, full);
    let many = optional_full(current, origin, count, forward, sequence, larger);
    let small = full_working_set(len, current, origin, forward, sequence, full);
    let large = full_working_set(len, current, origin, forward, sequence, larger);
    let head = small.len() - few.len();
    assert forall|i: int| 0 <= i < small.len() implies small[i] == large[i] by {
        if i >= head {
            assert(few[i - head] == many[i - head]);
        }
    }
    assert(small =~= large.take(small.len() as int));
}

/// A larger Full budget only extends the wave: with the same estimates, the wave
/// of the smaller budget is a prefix of the wave of the larger one, up to the
/// warm targets that follow either.
pub proof fn law_larger_full_budget_extends_the_wave(
    len: nat,
    current: int,
    forward: bool,
    zoomed: bool,
    sequence: Seq<usize>,
    full: BudgetModel,
    larger: BudgetModel,
    browse: BudgetModel,
)
    requires
        full.limit <= larger.limit,
        full.fallback == larger.fallback,
        full.known == larger.known,
    ensures
        prefetch_plan(len, current, forward, zoomed, sequence, full, browse, false).is_prefix_of(
            prefetch_plan(len, current, forward, zoomed, sequence, larger, browse, false),
        ),
{
    if len > 0 {
        let index = clamp_index(len, current);
        let order = normalized(len, sequence);
        let origin = origin_of(index, order);
        let count = ordered_len(len, order) as int;
        lemma_optional_full_extends(index, origin, count, forward, order, full, larger);
        let few = optional_full(index, origin, count, forward, order, full);
        let many = optional_full(index, origin, count, forward, order, larger);
        let small = prefetch_plan(len, current, forward, zoomed, sequence, full, browse, false);
        let large = prefetch_plan(len, current, forward, zoomed, sequence, larger, browse, false);
        let head = small.len() - few.len();
        assert forall|i: int| 0 <= i < small.len() implies small[i] == large[i] by {
            if i >= head {
                assert(few[i - head] == many[i - head]);
            }
        }
        assert(small =~= large.take(small.len() as int));
    }
}

proof fn lemma_affordable_agrees(
    candidates: Seq<Candidate>,
    sequence: Seq<usize>,
    budget: BudgetModel,
    other: BudgetModel,
    used: int,
)
    requires
        budget.limit == other.limit,
        forall|index: int| #[trigger] cost(budget, index) == cost(other, index),
    ensures
        affordable(candidates, sequence, budget, used) == affordable(
            candidates,
            sequence,
            other,
            used,
        ),
    decreases candidates.len(),
{
    if candidates.len() > 0 {
        let next = used + cost(budget, index_at(sequence, candidates[0].position));
        lemma_affordable_agrees(candidates.skip(1), sequence, budget, other, next);
    }
}

/// Whether two budgets with one limit know the same images and estimate each of
/// them alike, an estimate of zero bytes counting as one.
pub open spec fn estimates_alike(budget: BudgetModel, other: BudgetModel) -> bool {
    &&& budget.limit == other.limit
    &&& at_least_one(budget.fallback) == at_least_one(other.fallback)
    &&& budget.known.dom() == other.known.dom()
    &&& forall|index: usize| #[trigger]
        budget.known.contains_key(index) ==> at_least_one(budget.known[index] as int)
            == at_least_one(other.known[index] as int)
}

/// An estimate of zero bytes plans like an estimate of one byte, in either
/// budget, whether it is the fallback or a measured size: budgets that differ in
/// that alone select the same Full working set and give the same wave.
pub proof fn law_zero_estimate_plans_like_one(
    len: nat,
    current: int,
    forward: bool,
    zoomed: bool,
    sequence: Seq<usize>,
    full: (BudgetModel, BudgetModel),
    browse: (BudgetModel, BudgetModel),
    include_warm: bool,
)
    requires
        estimates_alike(full.0, full.1),
        estimates_alike(browse.0, browse.1),
    ensures
        prefetch_plan(len, current, forward, zoomed, sequence, full.0, browse.0, include_warm)
            == prefetch_plan(
            len,
            current,
            forward,
            zoomed,
            sequence,
            full.1,
            browse.1,
            include_warm,
        ),
        forall|index: int, origin: int| #[trigger]
            full_working_set(len, index, origin, forward, sequence, full.0) == full_working_set(
                len,
                index,
                origin,
                forward,
                sequence,
                full.1,
            ),
{
    lemma_same_costs(full.0, full.1);
    lemma_same_costs(browse.0, browse.1);
    assert forall|index: int, origin: int| #[trigger]
        full_working_set(len, index, origin, forward, sequence, full.0) == full_working_set(
            len,
            index,
            origin,
            forward,
            sequence,
            full.1,
        ) by {
        let count = ordered_len(len, sequence) as int;
        lemma_optional_full_agrees(index, origin, count, forward, sequence, full.0, full.1);
    }
    if len > 0 {
        let index = clamp_index(len, current);
        let order = normalized(len, sequence);
        let origin = origin_of(index, order);
        let count = ordered_len(len, order) as int;
        let first = near_first(origin);
        let end = near_end(origin, count);
        lemma_optional_full_agrees(index, origin, count, forward, order, full.0, full.1);
        lemma_mandatory_cost_agrees(index, order, browse.0, browse.1, first, end);
        lemma_affordable_agrees(
            within_window(wave(origin, count, forward, 2, 2)),
            order,
            browse.0,
            browse.1,
            mandatory_cost(index, order, browse.0, first, end),
        );
    }
}

proof fn lemma_same_costs(budget: BudgetModel, other: BudgetModel)
    requires
        estimates_alike(budget, other),
    ensures
        forall|index: int| #[trigger] cost(budget, index) == cost(other, index),
{
    assert forall|index: int| #[trigger] cost(budget, index) == cost(other, index) by {
        assert(budget.known.contains_key(index as usize) == other.known.contains_key(
            index as usize,
        ));
    }
}

proof fn lemma_optional_full_agrees(
    current: int,
    origin: int,
    count: int,
    forward: bool,
    sequence: Seq<usize>,
    full: BudgetModel,
    other: BudgetModel,
)
    requires
        full.limit == other.limit,
        forall|index: int| #[trigger] cost(full, index) == cost(other, index),
    ensures
        optional_full(current, origin, count, forward, sequence, full) == optional_full(
            current,
            origin,
            count,
            forward,
            sequence,
            other,
        ),
{
    let first = near_first(origin);
    let end = near_end(origin, count);
    lemma_mandatory_cost_agrees(current, sequence, full, other, first, end);
    lemma_affordable_agrees(
        wave(origin, count, forward, 2, 2),
        sequence,
        full,
        other,
        mandatory_cost(current, sequence, full, first, end),
    );
}

/// Number of Full-resolution targets.
pub open spec fn full_count(targets: Seq<PlanTarget>) -> int
    decreases targets.len(),
{
    if targets.len() == 0 {
        0
    } else {
        full_count(targets.drop_last()) + if targets.last().tier == Tier::Full {
            1int
        } else {
            0
        }
    }
}

proof fn lemma_full_count_add(first: Seq<PlanTarget>, second: Seq<PlanTarget>)
    ensures
        full_count(first + second) == full_count(first) + full_count(second),
    decreases second.len(),
{
    if second.len() == 0 {
        assert(first + second =~= first);
    } else {
        lemma_full_count_add(first, second.drop_last());
        assert((first + second).drop_last() =~= first + second.drop_last());
    }
}

proof fn lemma_full_count_of_one_tier(targets: Seq<PlanTarget>, tier: Tier)
    requires
        forall|i: int| 0 <= i < targets.len() ==> (#[trigger] targets[i]).tier == tier,
    ensures
        full_count(targets) == if tier == Tier::Full {
            targets.len() as int
        } else {
            0
        },
    decreases targets.len(),
{
    if targets.len() > 0 {
        let rest = targets.drop_last();
        assert forall|i: int| 0 <= i < rest.len() implies (#[trigger] rest[i]).tier == tier by {
            assert(rest[i] == targets[i]);
        }
        lemma_full_count_of_one_tier(rest, tier);
    }
}

proof fn lemma_warm_is_browse(current: int, forward: bool, end: int)
    ensures
        forall|i: int|
            0 <= i < warm_targets(current, forward, end).len() ==> (#[trigger] warm_targets(
                current,
                forward,
                end,
            )[i]).tier == Tier::Browse,
    decreases end,
{
    if end > 0 {
        lemma_warm_is_browse(current, forward, end - 1);
    }
}

proof fn lemma_mandatory_count(
    current: int,
    origin: int,
    forward: bool,
    sequence: Seq<usize>,
    budget: BudgetModel,
    first: int,
    end: int,
)
    requires
        first <= end,
    ensures
        ({
            let near = full_count(near_targets(current, origin, forward, sequence, first, end));
            &&& near <= (end - first) - if first <= origin < end && index_at(sequence, origin)
                == current {
                1int
            } else {
                0
            }
            &&& near + 1 <= mandatory_cost(current, sequence, budget, first, end)
        }),
    decreases end - first,
{
    if first < end {
        lemma_mandatory_count(current, origin, forward, sequence, budget, first, end - 1);
        let index = index_at(sequence, end - 1);
        let distance = effective(end - 1, origin, forward);
        if index != current {
            let rest = near_targets(current, origin, forward, sequence, first, end - 1);
            let pair = seq![
                display(index, Tier::Browse, 2, distance),
                display(index, Tier::Full, 2, distance),
            ];
            lemma_full_count_add(rest, pair);
            reveal_with_fuel(full_count, 3);
            assert(full_count(pair) == 1) by {
                assert(pair.drop_last().drop_last().len() == 0);
                assert(pair.drop_last().last() == pair[0]);
            }
        }
    }
}

proof fn lemma_prefix_cost_is_positive(
    candidates: Seq<Candidate>,
    sequence: Seq<usize>,
    budget: BudgetModel,
    n: int,
)
    requires
        0 <= n,
    ensures
        n <= prefix_cost(candidates, sequence, budget, n),
    decreases n,
{
    if n > 0 {
        lemma_prefix_cost_is_positive(candidates, sequence, budget, n - 1);
    }
}

/// No image is free, so a wave holds at most as many Full-resolution targets as
/// the Full budget has bytes, beyond the three that are always there.
pub proof fn law_full_targets_are_bounded_by_the_budget(
    len: nat,
    current: int,
    forward: bool,
    zoomed: bool,
    sequence: Seq<usize>,
    full: BudgetModel,
    browse: BudgetModel,
    include_warm: bool,
)
    requires
        len <= usize::MAX,
        0 <= current,
    ensures
        full_count(
            prefetch_plan(len, current, forward, zoomed, sequence, full, browse, include_warm),
        ) <= if full.limit > 3 {
            full.limit
        } else {
            3
        },
{
    if len > 0 {
        let index = clamp_index(len, current);
        let order = normalized(len, sequence);
        lemma_normalized(len, sequence);
        lemma_origin_in_order(len, index, order);
        let origin = origin_of(index, order);
        let count = ordered_len(len, order) as int;
        let first = near_first(origin);
        let end = near_end(origin, count);
        if order.len() > 0 {
            order.index_of_first_ensures(index as usize);
        }
        let now = current_targets(index, zoomed);
        let near = near_targets(index, origin, forward, order, first, end);
        let browsed = browse_targets(
            order,
            optional_browse(index, origin, count, forward, order, browse),
        );
        let admitted = optional_full(index, origin, count, forward, order, full);
        let prefetched = prefetch_targets(order, admitted);
        let warm = if include_warm {
            warm_targets(index, forward, len as int)
        } else {
            seq![]
        };
        lemma_warm_is_browse(index, forward, len as int);
        lemma_full_count_of_one_tier(warm, Tier::Browse);
        lemma_full_count_of_one_tier(browsed, Tier::Browse);
        lemma_full_count_of_one_tier(prefetched, Tier::Full);
        lemma_mandatory_count(index, origin, forward, order, full, first, end);
        assert(full_count(now) == 1) by {
            reveal_with_fuel(full_count, 3);
            assert(now.drop_last().drop_last().len() == 0);
            assert(now.drop_last().last() == now[0]);
        }
        lemma_full_count_add(now, near);
        lemma_full_count_add(now + near, browsed);
        lemma_full_count_add(now + near + browsed, prefetched);
        lemma_full_count_add(now + near + browsed + prefetched, warm);
        let used = mandatory_cost(index, order, full, first, end);
        let w = wave(origin, count, forward, 2, 2);
        law_budget_admits_the_longest_affordable_prefix(w, order, full, used);
        lemma_prefix_cost_is_positive(w, order, full, admitted.len() as int);
    }
}

} // verus!
