//! Which images a navigation wave covers.
//!
//! The laws here speak of the positions of a display order and of the bytes of the
//! images shown there, and of the targets that come of them.

use std::collections::HashMap;

use vstd::prelude::*;

use crate::planning::{
    adaptive_full_selections, affordable, browse_targets, build_plan_targets,
    build_plan_targets_with_full_prefetch, cost, current_targets, effective, full_selections, gap,
    index_at, is_ahead, law_budget_admits_the_longest_affordable_prefix,
    law_browse_wave_stays_in_window, law_wave_is_ordered_and_complete, lemma_normalized,
    lemma_origin_in_order, mandatory_cost, mandatory_full, near_end, near_first, near_targets,
    neighbor_targets, normalized, optional_browse, optional_full, origin_of, prefetch_targets,
    prefix_cost, scan_targets, step_from, warm_targets, wave, weight, within_window,
    BrowsePrefetchBudget, BudgetModel, Candidate, FullPrefetchBudget, FullSelection,
    NavigationPrefetchBudgets, PlanKind, PlanTarget,
};
use crate::types::Tier;

verus! {

// ---------------------------------------------------------------------------
// Positions, distances and bytes
// ---------------------------------------------------------------------------

/// The image shown at a position of a display order; an empty order shows the
/// folder as it is.
pub open spec fn shown(order: Seq<usize>, position: int) -> int {
    if order.len() == 0 {
        position
    } else {
        order[position] as int
    }
}

/// How many positions a display order of a folder has.
pub open spec fn shown_count(len: int, order: Seq<usize>) -> int {
    if order.len() == 0 {
        len
    } else {
        order.len() as int
    }
}

/// Number of positions from one to another.
pub open spec fn apart(a: int, b: int) -> int {
    if a < b {
        b - a
    } else {
        a - b
    }
}

/// Whether a position comes after another one in the navigation direction.
pub open spec fn is_onward(position: int, origin: int, forward: bool) -> bool {
    if forward {
        position > origin
    } else {
        position < origin
    }
}

/// How far navigation is from a position: one step for each position onward, three
/// for each one back.
pub open spec fn steps(position: int, origin: int, forward: bool) -> int {
    if is_onward(position, origin, forward) {
        apart(position, origin)
    } else {
        3 * apart(position, origin)
    }
}

/// Whether a position is reached no later than another one: it is not farther, and
/// of two that are equally far the one onward comes first.
pub open spec fn no_later(position: int, other: int, origin: int, forward: bool) -> bool {
    ||| position == other
    ||| steps(position, origin, forward) < steps(other, origin, forward)
    ||| steps(position, origin, forward) == steps(other, origin, forward) && is_onward(
        position,
        origin,
        forward,
    )
}

/// Bytes that an image is taken to need: what was measured, else the estimate, and
/// at least one.
pub open spec fn bytes(budget: BudgetModel, image: int) -> int {
    let known = if budget.known.dom().contains(image as usize) {
        budget.known[image as usize] as int
    } else {
        budget.fallback
    };
    if known >= 1 {
        known
    } else {
        1
    }
}

/// Sum over the numbers below `n`.
pub open spec fn total(part: spec_fn(int) -> int, n: int) -> int
    decreases n,
{
    if n <= 0 {
        0
    } else {
        total(part, n - 1) + part(n - 1)
    }
}

/// Bytes needed to reach a position: those of the current image, of its immediate
/// neighbors, and of every farther image that is reached no later.
pub open spec fn needed(
    order: Seq<usize>,
    count: int,
    current: int,
    origin: int,
    forward: bool,
    budget: BudgetModel,
    position: int,
) -> int {
    bytes(budget, current) + total(
        |p: int|
            if (apart(p, origin) <= 1 && shown(order, p) != current) || (apart(p, origin) >= 2
                && no_later(p, position, origin, forward)) {
                bytes(budget, shown(order, p))
            } else {
                0
            },
        count,
    )
}

/// A distance as a target holds it.
pub open spec fn held(distance: int) -> u32 {
    if distance <= u32::MAX {
        distance as u32
    } else {
        u32::MAX
    }
}

/// Whether an order is what is left of a sequence without entries that are no image
/// of the folder and without repetitions: every image of the sequence once, in the
/// order of first occurrence.
pub open spec fn is_left_of(len: int, sequence: Seq<usize>, order: Seq<usize>) -> bool {
    &&& forall|p: int|
        0 <= p < order.len() ==> (#[trigger] order[p]) < len && sequence.contains(order[p])
    &&& forall|i: int|
        0 <= i < sequence.len() && (#[trigger] sequence[i]) < len ==> order.contains(sequence[i])
    &&& forall|p: int, q: int| 0 <= p < q < order.len() ==> #[trigger] order[p] != #[trigger] order[q]
    &&& forall|p: int, q: int|
        0 <= p < q < order.len() ==> precedes(sequence, #[trigger] order[p], #[trigger] order[q])
}

/// Whether an entry of a sequence occurs before the first occurrence of another one.
pub open spec fn precedes(sequence: Seq<usize>, entry: usize, other: usize) -> bool {
    exists|i: int|
        0 <= i < sequence.len() && #[trigger] sequence[i] == entry && forall|j: int|
            0 <= j <= i ==> sequence[j] != other
}

/// Whether navigation starts at a position: the first one that shows the current
/// image, or the first of all where none does.
pub open spec fn starts_at(order: Seq<usize>, count: int, current: int, origin: int) -> bool {
    &&& 0 <= origin < count
    &&& shown(order, origin) == current || origin == 0
    &&& forall|p: int| 0 <= p < origin ==> #[trigger] shown(order, p) != current
    &&& shown(order, origin) != current ==> forall|p: int|
        0 <= p < count ==> #[trigger] shown(order, p) != current
}

// ---------------------------------------------------------------------------
// Sums
// ---------------------------------------------------------------------------

proof fn lemma_total_same(f: spec_fn(int) -> int, g: spec_fn(int) -> int, n: int)
    requires
        forall|p: int| 0 <= p < n ==> #[trigger] f(p) == g(p),
    ensures
        total(f, n) == total(g, n),
    decreases n,
{
    if n > 0 {
        lemma_total_same(f, g, n - 1);
        assert(f(n - 1) == g(n - 1));
    }
}

proof fn lemma_total_changed(
    f: spec_fn(int) -> int,
    g: spec_fn(int) -> int,
    n: int,
    at: int,
    more: int,
)
    requires
        0 <= at < n,
        forall|p: int| 0 <= p < n && p != at ==> #[trigger] f(p) == g(p),
        g(at) == f(at) + more,
    ensures
        total(g, n) == total(f, n) + more,
    decreases n,
{
    if at == n - 1 {
        lemma_total_same(f, g, n - 1);
    } else {
        lemma_total_changed(f, g, n - 1, at, more);
        assert(f(n - 1) == g(n - 1));
    }
}

proof fn lemma_total_sum(
    f: spec_fn(int) -> int,
    g: spec_fn(int) -> int,
    sum: spec_fn(int) -> int,
    n: int,
)
    requires
        forall|p: int| 0 <= p < n ==> #[trigger] sum(p) == f(p) + g(p),
    ensures
        total(sum, n) == total(f, n) + total(g, n),
    decreases n,
{
    if n > 0 {
        lemma_total_sum(f, g, sum, n - 1);
        assert(sum(n - 1) == f(n - 1) + g(n - 1));
    }
}

proof fn lemma_total_zero(f: spec_fn(int) -> int, n: int)
    requires
        forall|p: int| 0 <= p < n ==> #[trigger] f(p) == 0,
    ensures
        total(f, n) == 0,
    decreases n,
{
    if n > 0 {
        lemma_total_zero(f, n - 1);
        assert(f(n - 1) == 0);
    }
}

// ---------------------------------------------------------------------------
// The wave
// ---------------------------------------------------------------------------

proof fn lemma_steps(position: int, origin: int, forward: bool)
    ensures
        apart(position, origin) == gap(position, origin),
        position != origin ==> is_onward(position, origin, forward) == is_ahead(
            position,
            origin,
            forward,
        ),
        steps(position, origin, forward) == weight(position, origin, forward),
        effective(position, origin, forward) as u32 == held(steps(position, origin, forward)),
        effective(position, origin, forward) <= 24 <==> steps(position, origin, forward) <= 24,
        0 <= effective(position, origin, forward) <= u32::MAX,
{
}

proof fn lemma_wave_ties(origin: int, count: int, forward: bool, ahead: int, behind: int)
    requires
        0 <= origin < count,
        1 <= ahead,
        1 <= behind,
    ensures
        ({
            let w = wave(origin, count, forward, ahead, behind);
            &&& forall|i: int|
                0 <= i < w.len() ==> (is_ahead((#[trigger] w[i]).position, origin, forward) ==> gap(
                    w[i].position,
                    origin,
                ) >= ahead) && (!is_ahead(w[i].position, origin, forward) ==> gap(
                    w[i].position,
                    origin,
                ) >= behind) && w[i].position != origin
            &&& forall|i: int, j: int|
                0 <= i < j < w.len() ==> weight((#[trigger] w[i]).position, origin, forward)
                    < weight((#[trigger] w[j]).position, origin, forward) || is_ahead(
                    w[i].position,
                    origin,
                    forward,
                )
        }),
    decreases
            (if ahead < count {
                count - ahead
            } else {
                0
            }) + (if behind < count {
                count - behind
            } else {
                0
            }),
{
    let w = wave(origin, count, forward, ahead, behind);
    let ahead_position = step_from(origin, ahead, forward);
    let behind_position = step_from(origin, behind, !forward);
    let has_ahead = 0 <= ahead_position < count;
    let has_behind = 0 <= behind_position < count;
    if has_ahead || has_behind {
        let takes_ahead = has_ahead && (!has_behind || ahead <= 3 * behind);
        let next_ahead = if takes_ahead {
            ahead + 1
        } else {
            ahead
        };
        let next_behind = if takes_ahead {
            behind
        } else {
            behind + 1
        };
        lemma_wave_ties(origin, count, forward, next_ahead, next_behind);
        let tail = wave(origin, count, forward, next_ahead, next_behind);
        let head = w[0];
        assert(w =~= seq![head] + tail);
        assert forall|i: int| 0 <= i < w.len() implies (is_ahead(
            (#[trigger] w[i]).position,
            origin,
            forward,
        ) ==> gap(w[i].position, origin) >= ahead) && (!is_ahead(w[i].position, origin, forward)
            ==> gap(w[i].position, origin) >= behind) && w[i].position != origin by {
            if i > 0 {
                assert(w[i] == tail[i - 1]);
            }
        }
        lemma_tail_in_range(origin, count, forward, next_ahead, next_behind);
        assert forall|i: int, j: int| 0 <= i < j < w.len() implies weight(
            (#[trigger] w[i]).position,
            origin,
            forward,
        ) < weight((#[trigger] w[j]).position, origin, forward) || is_ahead(
            w[i].position,
            origin,
            forward,
        ) by {
            assert(w[j] == tail[j - 1]);
            if i > 0 {
                assert(w[i] == tail[i - 1]);
            }
        }
    }
}

proof fn lemma_tail_in_range(origin: int, count: int, forward: bool, ahead: int, behind: int)
    requires
        0 <= origin < count,
        1 <= ahead,
        1 <= behind,
    ensures
        forall|i: int|
            0 <= i < wave(origin, count, forward, ahead, behind).len() ==> 0 <= (#[trigger] wave(
                origin,
                count,
                forward,
                ahead,
                behind,
            )[i]).position < count,
    decreases
            (if ahead < count {
                count - ahead
            } else {
                0
            }) + (if behind < count {
                count - behind
            } else {
                0
            }),
{
    let w = wave(origin, count, forward, ahead, behind);
    let ahead_position = step_from(origin, ahead, forward);
    let behind_position = step_from(origin, behind, !forward);
    let has_ahead = 0 <= ahead_position < count;
    let has_behind = 0 <= behind_position < count;
    if has_ahead || has_behind {
        let takes_ahead = has_ahead && (!has_behind || ahead <= 3 * behind);
        let next_ahead = if takes_ahead {
            ahead + 1
        } else {
            ahead
        };
        let next_behind = if takes_ahead {
            behind
        } else {
            behind + 1
        };
        lemma_tail_in_range(origin, count, forward, next_ahead, next_behind);
        let tail = wave(origin, count, forward, next_ahead, next_behind);
        assert(w =~= seq![w[0]] + tail);
        assert forall|i: int| 0 <= i < w.len() implies 0 <= (#[trigger] w[i]).position < count by {
            if i > 0 {
                assert(w[i] == tail[i - 1]);
            }
        }
    }
}

/// Whether a position is one of the first `n` of a wave.
spec fn visited(w: Seq<Candidate>, n: int, position: int) -> bool {
    exists|i: int| 0 <= i < n && (#[trigger] w[i]).position == position
}

proof fn lemma_prefix_is_total(
    w: Seq<Candidate>,
    order: Seq<usize>,
    budget: BudgetModel,
    count: int,
    n: int,
)
    requires
        0 <= n <= w.len(),
        forall|i: int| 0 <= i < w.len() ==> 0 <= (#[trigger] w[i]).position < count,
        forall|i: int, j: int|
            0 <= i < j < w.len() ==> (#[trigger] w[i]).position != (#[trigger] w[j]).position,
    ensures
        prefix_cost(w, order, budget, n) == total(
            |p: int|
                if visited(w, n, p) {
                    bytes(budget, shown(order, p))
                } else {
                    0
                },
            count,
        ),
    decreases n,
{
    let f = |p: int|
        if visited(w, n, p) {
            bytes(budget, shown(order, p))
        } else {
            0
        };
    if n <= 0 {
        lemma_total_zero(f, count);
    } else {
        let g = |p: int|
            if visited(w, n - 1, p) {
                bytes(budget, shown(order, p))
            } else {
                0
            };
        lemma_prefix_is_total(w, order, budget, count, n - 1);
        let at = w[n - 1].position;
        assert(!visited(w, n - 1, at));
        assert(visited(w, n, at));
        assert forall|p: int| 0 <= p < count && p != at implies #[trigger] g(p) == f(p) by {
            if visited(w, n - 1, p) {
                let i = choose|i: int| 0 <= i < n - 1 && (#[trigger] w[i]).position == p;
                assert(visited(w, n, p));
            } else if visited(w, n, p) {
                let i = choose|i: int| 0 <= i < n && (#[trigger] w[i]).position == p;
                assert(visited(w, n - 1, p));
            }
        }
        lemma_total_changed(g, f, count, at, bytes(budget, shown(order, at)));
        assert(cost(budget, index_at(order, at)) == bytes(budget, shown(order, at)));
    }
}

/// Bytes of the far positions that are reached no later than one of them.
spec fn far_bytes(
    order: Seq<usize>,
    count: int,
    origin: int,
    forward: bool,
    budget: BudgetModel,
    position: int,
) -> int {
    total(
        |p: int|
            if apart(p, origin) >= 2 && no_later(p, position, origin, forward) {
                bytes(budget, shown(order, p))
            } else {
                0
            },
        count,
    )
}

proof fn lemma_place_in_wave(
    order: Seq<usize>,
    count: int,
    origin: int,
    forward: bool,
    budget: BudgetModel,
    position: int,
) -> (at: int)
    requires
        0 <= origin < count,
        0 <= position < count,
        apart(position, origin) >= 2,
    ensures
        ({
            let w = wave(origin, count, forward, 2, 2);
            &&& 0 <= at < w.len() && w[at].position == position
            &&& prefix_cost(w, order, budget, at + 1) == far_bytes(
                order,
                count,
                origin,
                forward,
                budget,
                position,
            )
        }),
{
    let w = wave(origin, count, forward, 2, 2);
    law_wave_is_ordered_and_complete(origin, count, forward);
    lemma_wave_ties(origin, count, forward, 2, 2);
    assert(gap(position, origin) >= 2);
    let at = choose|i: int| 0 <= i < w.len() && (#[trigger] w[i]).position == position;
    lemma_prefix_is_total(w, order, budget, count, at + 1);
    let f = |p: int|
        if visited(w, at + 1, p) {
            bytes(budget, shown(order, p))
        } else {
            0
        };
    let g = |p: int|
        if apart(p, origin) >= 2 && no_later(p, position, origin, forward) {
            bytes(budget, shown(order, p))
        } else {
            0
        };
    assert forall|p: int| 0 <= p < count implies #[trigger] f(p) == g(p) by {
        lemma_steps(p, origin, forward);
        lemma_steps(position, origin, forward);
        if visited(w, at + 1, p) {
            let i = choose|i: int| 0 <= i < at + 1 && (#[trigger] w[i]).position == p;
            if i < at {
                assert(weight(w[i].position, origin, forward) <= weight(
                    w[at].position,
                    origin,
                    forward,
                ));
                assert(weight(w[i].position, origin, forward) < weight(
                    w[at].position,
                    origin,
                    forward,
                ) || is_ahead(w[i].position, origin, forward));
            }
        } else if apart(p, origin) >= 2 && no_later(p, position, origin, forward) {
            assert(gap(p, origin) >= 2);
            let i = choose|i: int| 0 <= i < w.len() && (#[trigger] w[i]).position == p;
            assert(i > at);
            assert(weight(w[at].position, origin, forward) <= weight(
                w[i].position,
                origin,
                forward,
            ));
            assert(weight(w[at].position, origin, forward) < weight(
                w[i].position,
                origin,
                forward,
            ) || is_ahead(w[at].position, origin, forward));
            assert(w[at].position != w[i].position);
        }
    }
    lemma_total_same(f, g, count);
    at
}

proof fn lemma_prefix_grows(
    w: Seq<Candidate>,
    order: Seq<usize>,
    budget: BudgetModel,
    a: int,
    b: int,
)
    requires
        0 <= a <= b,
    ensures
        prefix_cost(w, order, budget, a) <= prefix_cost(w, order, budget, b),
    decreases b - a,
{
    if a < b {
        lemma_prefix_grows(w, order, budget, a, b - 1);
    }
}

proof fn lemma_prefix_of_take(
    w: Seq<Candidate>,
    order: Seq<usize>,
    budget: BudgetModel,
    m: int,
    n: int,
)
    requires
        0 <= n <= m <= w.len(),
    ensures
        prefix_cost(w.take(m), order, budget, n) == prefix_cost(w, order, budget, n),
    decreases n,
{
    if n > 0 {
        lemma_prefix_of_take(w, order, budget, m, n - 1);
        assert(w.take(m)[n - 1] == w[n - 1]);
    }
}

proof fn lemma_mandatory(
    order: Seq<usize>,
    count: int,
    current: int,
    origin: int,
    budget: BudgetModel,
    first: int,
    end: int,
)
    requires
        0 <= origin < count,
        first == near_first(origin),
        first <= end <= near_end(origin, count),
    ensures
        mandatory_cost(current, order, budget, first, end) == bytes(budget, current) + total(
            |p: int|
                if apart(p, origin) <= 1 && shown(order, p) != current {
                    bytes(budget, shown(order, p))
                } else {
                    0
                },
            end,
        ),
    decreases end - first,
{
    let f = |p: int|
        if apart(p, origin) <= 1 && shown(order, p) != current {
            bytes(budget, shown(order, p))
        } else {
            0
        };
    if end <= first {
        lemma_total_zero(f, end);
    } else {
        lemma_mandatory(order, count, current, origin, budget, first, end - 1);
    }
}

proof fn lemma_total_longer(f: spec_fn(int) -> int, m: int, n: int)
    requires
        0 <= m <= n,
        forall|p: int| m <= p < n ==> #[trigger] f(p) == 0,
    ensures
        total(f, n) == total(f, m),
    decreases n - m,
{
    if m < n {
        lemma_total_longer(f, m, n - 1);
        assert(f(n - 1) == 0);
    }
}

proof fn lemma_needed(
    order: Seq<usize>,
    count: int,
    current: int,
    origin: int,
    forward: bool,
    budget: BudgetModel,
    position: int,
)
    requires
        0 <= origin < count,
        0 <= position < count,
        apart(position, origin) >= 2,
    ensures
        needed(order, count, current, origin, forward, budget, position) == mandatory_cost(
            current,
            order,
            budget,
            near_first(origin),
            near_end(origin, count),
        ) + far_bytes(order, count, origin, forward, budget, position),
{
    let near = |p: int|
        if apart(p, origin) <= 1 && shown(order, p) != current {
            bytes(budget, shown(order, p))
        } else {
            0
        };
    let far = |p: int|
        if apart(p, origin) >= 2 && no_later(p, position, origin, forward) {
            bytes(budget, shown(order, p))
        } else {
            0
        };
    let both = |p: int|
        if (apart(p, origin) <= 1 && shown(order, p) != current) || (apart(p, origin) >= 2
            && no_later(p, position, origin, forward)) {
            bytes(budget, shown(order, p))
        } else {
            0
        };
    lemma_mandatory(
        order,
        count,
        current,
        origin,
        budget,
        near_first(origin),
        near_end(origin, count),
    );
    lemma_total_longer(near, near_end(origin, count), count);
    lemma_total_sum(near, far, both, count);
}

/// Whether candidates hold a position.
spec fn holds(candidates: Seq<Candidate>, position: int) -> bool {
    exists|i: int| 0 <= i < candidates.len() && (#[trigger] candidates[i]).position == position
}

proof fn lemma_admitted(
    order: Seq<usize>,
    count: int,
    current: int,
    origin: int,
    forward: bool,
    budget: BudgetModel,
    position: int,
)
    requires
        0 <= origin < count,
        0 <= position < count,
        apart(position, origin) >= 2,
    ensures
        ({
            let fits = needed(order, count, current, origin, forward, budget, position)
                <= budget.limit;
            &&& holds(optional_full(current, origin, count, forward, order, budget), position)
                <==> fits
            &&& holds(optional_browse(current, origin, count, forward, order, budget), position)
                <==> fits && steps(position, origin, forward) <= 24
        }),
{
    let w = wave(origin, count, forward, 2, 2);
    let used = mandatory_cost(
        current,
        order,
        budget,
        near_first(origin),
        near_end(origin, count),
    );
    lemma_needed(order, count, current, origin, forward, budget, position);
    let at = lemma_place_in_wave(order, count, origin, forward, budget, position);
    law_wave_is_ordered_and_complete(origin, count, forward);
    law_browse_wave_stays_in_window(origin, count, forward);
    lemma_steps(position, origin, forward);
    let inside = within_window(w);
    let m = inside.len() as int;
    lemma_prefix_fits(w, order, budget, used, at);
    if at < m {
        lemma_prefix_fits(inside, order, budget, used, at);
        lemma_prefix_of_take(w, order, budget, m, at + 1);
        assert(inside[at] == w[at]);
    } else {
        law_budget_admits_the_longest_affordable_prefix(inside, order, budget, used);
        let admitted = affordable(inside, order, budget, used);
        assert forall|i: int| 0 <= i < admitted.len() implies (#[trigger] admitted[i]).position
            != position by {
            assert(admitted[i] == w[i]);
            assert(w[i].position != w[at].position);
        }
    }
    if at < m {
        assert forall|i: int, j: int| 0 <= i < j < inside.len() implies (
        #[trigger] inside[i]).position != (#[trigger] inside[j]).position by {
            assert(inside[i] == w[i] && inside[j] == w[j]);
        }
        lemma_holds_at(inside, affordable(inside, order, budget, used), at);
    }
    lemma_holds_at(w, affordable(w, order, budget, used), at);
}

proof fn lemma_holds_at(w: Seq<Candidate>, admitted: Seq<Candidate>, at: int)
    requires
        0 <= at < w.len(),
        admitted.len() <= w.len(),
        admitted == w.take(admitted.len() as int),
        forall|i: int, j: int|
            0 <= i < j < w.len() ==> (#[trigger] w[i]).position != (#[trigger] w[j]).position,
    ensures
        holds(admitted, w[at].position) <==> at < admitted.len(),
{
    if at < admitted.len() {
        assert(admitted[at] == w[at]);
    }
    if holds(admitted, w[at].position) {
        let i = choose|i: int|
            0 <= i < admitted.len() && (#[trigger] admitted[i]).position == w[at].position;
        assert(admitted[i] == w[i]);
        if i < at {
            assert(w[i].position != w[at].position);
        } else if at < i {
            assert(w[at].position != w[i].position);
        }
    }
}

proof fn lemma_prefix_fits(
    w: Seq<Candidate>,
    order: Seq<usize>,
    budget: BudgetModel,
    used: int,
    at: int,
)
    requires
        0 <= at < w.len(),
    ensures
        ({
            let admitted = affordable(w, order, budget, used);
            &&& admitted.len() <= w.len()
            &&& admitted == w.take(admitted.len() as int)
            &&& at < admitted.len() <==> used + prefix_cost(w, order, budget, at + 1)
                <= budget.limit
        }),
{
    law_budget_admits_the_longest_affordable_prefix(w, order, budget, used);
    let n = affordable(w, order, budget, used).len() as int;
    if at < n {
        lemma_prefix_grows(w, order, budget, at + 1, n);
    } else {
        lemma_prefix_grows(w, order, budget, n + 1, at + 1);
    }
}

// ---------------------------------------------------------------------------
// The display order
// ---------------------------------------------------------------------------

proof fn lemma_left_of_is_normalized(len: int, sequence: Seq<usize>, order: Seq<usize>)
    requires
        0 <= len,
        is_left_of(len, sequence, order),
    ensures
        normalized(len as nat, sequence) == order,
    decreases sequence.len(),
{
    if sequence.len() == 0 {
        if order.len() > 0 {
            assert(sequence.contains(order[0]));
        }
        assert(order =~= normalized(len as nat, sequence));
    } else {
        let last = sequence.last();
        let rest = sequence.drop_last();
        assert(sequence[sequence.len() - 1] == last);
        if last < len && !rest.contains(last) {
            assert(order.contains(last));
            let at = choose|p: int| 0 <= p < order.len() && order[p] == last;
            if at < order.len() - 1 {
                let q = order.len() - 1;
                assert(precedes(sequence, order[at], order[q]));
                let i = choose|i: int|
                    0 <= i < sequence.len() && #[trigger] sequence[i] == order[at] && forall|j: int|
                        0 <= j <= i ==> sequence[j] != order[q];
                if i < rest.len() {
                    assert(rest[i] == last);
                }
                assert(sequence.contains(order[q]));
                let j = choose|j: int| 0 <= j < sequence.len() && sequence[j] == order[q];
                assert(false);
            }
            let front = order.drop_last();
            assert(order =~= front.push(last));
            assert forall|p: int| 0 <= p < front.len() implies (#[trigger] front[p]) < len
                && rest.contains(front[p]) by {
                assert(order[p] == front[p]);
                assert(order[p] != order[at]);
                let i = choose|i: int| 0 <= i < sequence.len() && sequence[i] == order[p];
                assert(rest[i] == order[p]);
            }
            assert forall|i: int| 0 <= i < rest.len() && (#[trigger] rest[i])
                < len implies front.contains(rest[i]) by {
                assert(sequence[i] == rest[i]);
                let p = choose|p: int| 0 <= p < order.len() && order[p] == sequence[i];
                if p == at {
                    assert(rest.contains(last));
                }
                assert(front[p] == rest[i]);
            }
            assert forall|p: int, q: int| 0 <= p < q < front.len() implies precedes(
                rest,
                #[trigger] front[p],
                #[trigger] front[q],
            ) by {
                assert(order[p] == front[p] && order[q] == front[q]);
                lemma_precedes_in_front(sequence, order[p], order[q]);
            }
            assert forall|p: int, q: int| 0 <= p < q < front.len() implies #[trigger] front[p]
                != #[trigger] front[q] by {
                assert(order[p] == front[p] && order[q] == front[q]);
            }
            lemma_left_of_is_normalized(len, rest, front);
        } else {
            assert forall|p: int| 0 <= p < order.len() implies (#[trigger] order[p]) < len
                && rest.contains(order[p]) by {
                let i = choose|i: int| 0 <= i < sequence.len() && sequence[i] == order[p];
                if i < rest.len() {
                    assert(rest[i] == order[p]);
                }
            }
            assert forall|i: int| 0 <= i < rest.len() && (#[trigger] rest[i])
                < len implies order.contains(rest[i]) by {
                assert(sequence[i] == rest[i]);
            }
            assert forall|p: int, q: int| 0 <= p < q < order.len() implies precedes(
                rest,
                #[trigger] order[p],
                #[trigger] order[q],
            ) by {
                assert(rest.contains(order[q]));
                let j = choose|j: int| 0 <= j < rest.len() && rest[j] == order[q];
                assert(sequence[j] == order[q]);
                assert(precedes(sequence, order[p], order[q]));
                let i = choose|i: int|
                    0 <= i < sequence.len() && #[trigger] sequence[i] == order[p] && forall|j: int|
                        0 <= j <= i ==> sequence[j] != order[q];
                assert(i < j);
                assert(rest[i] == order[p]);
                assert forall|k: int| 0 <= k <= i implies rest[k] != order[q] by {
                    assert(sequence[k] == rest[k]);
                }
            }
            lemma_left_of_is_normalized(len, rest, order);
        }
        lemma_normalized(len as nat, rest);
    }
}

proof fn lemma_precedes_in_front(sequence: Seq<usize>, entry: usize, other: usize)
    requires
        sequence.len() > 0,
        precedes(sequence, entry, other),
        sequence.drop_last().contains(other),
    ensures
        precedes(sequence.drop_last(), entry, other),
{
    let rest = sequence.drop_last();
    let j = choose|j: int| 0 <= j < rest.len() && rest[j] == other;
    assert(sequence[j] == other);
    let i = choose|i: int|
        0 <= i < sequence.len() && #[trigger] sequence[i] == entry && forall|j: int|
            0 <= j <= i ==> sequence[j] != other;
    assert(i < j);
    assert(rest[i] == entry);
    assert forall|k: int| 0 <= k <= i implies rest[k] != other by {
        assert(sequence[k] == rest[k]);
    }
}

proof fn lemma_origin(len: int, order: Seq<usize>, current: int, origin: int)
    requires
        0 <= current < len <= usize::MAX,
        starts_at(order, shown_count(len, order), current, origin),
    ensures
        origin_of(current, order) == origin,
{
    if order.len() == 0 {
        assert(shown(order, current) == current);
        if origin > current {
            assert(shown(order, current) != current);
        }
    } else {
        order.index_of_first_ensures(current as usize);
        if shown(order, origin) == current {
            assert(order.contains(order[origin]));
            let first = order.index_of_first(current as usize)->0;
            if first < origin {
                assert(shown(order, first) != current);
            }
        } else if order.contains(current as usize) {
            let p = choose|p: int| 0 <= p < order.len() && order[p] == current as usize;
            assert(shown(order, p) == current);
        }
    }
}

// ---------------------------------------------------------------------------
// The adaptive wave
// ---------------------------------------------------------------------------

proof fn lemma_in_sum(a: Seq<PlanTarget>, b: Seq<PlanTarget>, target: PlanTarget)
    ensures
        (a + b).contains(target) <==> a.contains(target) || b.contains(target),
{
    if a.contains(target) {
        let i = choose|i: int| 0 <= i < a.len() && a[i] == target;
        assert((a + b)[i] == target);
    }
    if b.contains(target) {
        let i = choose|i: int| 0 <= i < b.len() && b[i] == target;
        assert((a + b)[a.len() + i] == target);
    }
    if (a + b).contains(target) {
        let i = choose|i: int| 0 <= i < (a + b).len() && (a + b)[i] == target;
        if i < a.len() {
            assert(a[i] == target);
        } else {
            assert(b[i - a.len()] == target);
        }
    }
}

/// The target of one image.
pub open spec fn aims(
    image: int,
    tier: Tier,
    class: u8,
    distance: int,
    kind: PlanKind,
) -> PlanTarget {
    PlanTarget { index: image as usize, tier, class, effective_distance: held(distance), kind }
}

/// Whether a target is one of the current image: Browse first of all, and Full
/// likewise where it is zoomed, else next.
pub open spec fn aims_at_current(target: PlanTarget, current: int, zoomed: bool) -> bool {
    ||| target == aims(current, Tier::Browse, 0, 0, PlanKind::Display)
    ||| zoomed && target == aims(current, Tier::Full, 0, 0, PlanKind::Display)
    ||| !zoomed && target == aims(current, Tier::Full, 1, 0, PlanKind::Display)
}

/// Whether a target is one of an image shown beside the origin.
pub open spec fn aims_near(
    target: PlanTarget,
    order: Seq<usize>,
    count: int,
    current: int,
    origin: int,
    forward: bool,
    full_class: u8,
    position: int,
) -> bool {
    let distance = steps(position, origin, forward);
    &&& 0 <= position < count && apart(position, origin) <= 1 && shown(order, position) != current
    &&& {
        ||| target == aims(shown(order, position), Tier::Browse, 2, distance, PlanKind::Display)
        ||| target == aims(shown(order, position), Tier::Full, full_class, distance, PlanKind::Display)
    }
}

/// Whether a target warms an image outside of the interactive window.
pub open spec fn aims_to_warm(target: PlanTarget, len: int, current: int, forward: bool, image: int)
    -> bool {
    let distance = steps(image, current, forward);
    &&& 0 <= image < len && image != current && distance > 24
    &&& target == aims(image, Tier::Browse, 6, distance, PlanKind::Warm)
}

/// Whether a target browses an image of the interactive window beyond the
/// neighbors.
pub open spec fn aims_far(
    target: PlanTarget,
    order: Seq<usize>,
    count: int,
    origin: int,
    forward: bool,
    position: int,
) -> bool {
    let distance = steps(position, origin, forward);
    &&& 0 <= position < count && apart(position, origin) >= 2 && distance <= 24
    &&& target == aims(shown(order, position), Tier::Browse, 4, distance, PlanKind::Display)
}

/// Whether a target prefetches an image beyond the neighbors in Full resolution.
pub open spec fn aims_to_prefetch(
    target: PlanTarget,
    order: Seq<usize>,
    count: int,
    origin: int,
    forward: bool,
    position: int,
) -> bool {
    let distance = steps(position, origin, forward);
    &&& 0 <= position < count && apart(position, origin) >= 2
    &&& target == aims(shown(order, position), Tier::Full, 5, distance, PlanKind::Prefetch)
}

proof fn lemma_near(
    order: Seq<usize>,
    count: int,
    current: int,
    origin: int,
    forward: bool,
    first: int,
    end: int,
    target: PlanTarget,
)
    requires
        0 <= origin < count,
        first == near_first(origin),
        first <= end <= near_end(origin, count),
    ensures
        near_targets(current, origin, forward, order, first, end).contains(target) <==> exists|p: int|
            first <= p < end && #[trigger] aims_near(
                target,
                order,
                count,
                current,
                origin,
                forward,
                2,
                p,
            ),
    decreases end - first,
{
    let targets = near_targets(current, origin, forward, order, first, end);
    if first < end {
        let p = end - 1;
        let rest = near_targets(current, origin, forward, order, first, p);
        lemma_near(order, count, current, origin, forward, first, p, target);
        lemma_steps(p, origin, forward);
        let index = index_at(order, p);
        let distance = effective(p, origin, forward);
        let pair = seq![
            crate::planning::display(index, Tier::Browse, 2, distance),
            crate::planning::display(index, Tier::Full, 2, distance),
        ];
        assert(pair[0] == aims(shown(order, p), Tier::Browse, 2, steps(p, origin, forward), PlanKind::Display));
        assert(pair[1] == aims(shown(order, p), Tier::Full, 2, steps(p, origin, forward), PlanKind::Display));
        lemma_in_sum(rest, pair, target);
        if index != current {
            assert(pair.contains(target) <==> aims_near(
                target,
                order,
                count,
                current,
                origin,
                forward,
                2,
                p,
            )) by {
                if aims_near(target, order, count, current, origin, forward, 2, p) {
                    assert(target == pair[0] || target == pair[1]);
                }
            }
        }
    }
}

proof fn lemma_warm(current: int, forward: bool, len: int, end: int, target: PlanTarget)
    requires
        0 <= end <= len <= usize::MAX,
    ensures
        warm_targets(current, forward, end).contains(target) <==> exists|image: int|
            0 <= image < end && #[trigger] aims_to_warm(target, len, current, forward, image),
    decreases end,
{
    if end > 0 {
        let image = end - 1;
        let rest = warm_targets(current, forward, image);
        lemma_warm(current, forward, len, image, target);
        lemma_steps(image, current, forward);
        let one = seq![aims(image, Tier::Browse, 6, steps(image, current, forward), PlanKind::Warm)];
        lemma_in_sum(rest, one, target);
        if image != current && steps(image, current, forward) > 24 {
            assert(warm_targets(current, forward, end) =~= rest + one);
            assert(one.contains(target) <==> target == one[0]) by {
                if target == one[0] {
                    assert(one.contains(one[0]));
                }
            }
            assert(one.contains(target) <==> aims_to_warm(target, len, current, forward, image));
        } else {
            assert(warm_targets(current, forward, end) == rest);
            assert(!aims_to_warm(target, len, current, forward, image));
        }
    }
}

proof fn lemma_candidates(
    order: Seq<usize>,
    count: int,
    current: int,
    origin: int,
    forward: bool,
    budget: BudgetModel,
    i: int,
)
    requires
        0 <= origin < count,
    ensures
        ({
            let full = optional_full(current, origin, count, forward, order, budget);
            let browse = optional_browse(current, origin, count, forward, order, budget);
            &&& 0 <= i < full.len() ==> 0 <= full[i].position < count && apart(
                full[i].position,
                origin,
            ) >= 2 && full[i].distance as u32 == held(steps(full[i].position, origin, forward))
            &&& 0 <= i < browse.len() ==> 0 <= browse[i].position < count && apart(
                browse[i].position,
                origin,
            ) >= 2 && browse[i].distance as u32 == held(steps(browse[i].position, origin, forward))
                && steps(browse[i].position, origin, forward) <= 24
        }),
{
    let w = wave(origin, count, forward, 2, 2);
    let used = mandatory_cost(current, order, budget, near_first(origin), near_end(origin, count));
    law_wave_is_ordered_and_complete(origin, count, forward);
    law_browse_wave_stays_in_window(origin, count, forward);
    law_budget_admits_the_longest_affordable_prefix(w, order, budget, used);
    law_budget_admits_the_longest_affordable_prefix(within_window(w), order, budget, used);
    let full = optional_full(current, origin, count, forward, order, budget);
    let browse = optional_browse(current, origin, count, forward, order, budget);
    if 0 <= i < full.len() {
        assert(full[i] == w[i]);
        lemma_steps(w[i].position, origin, forward);
    }
    if 0 <= i < browse.len() {
        assert(browse[i] == within_window(w)[i]);
        assert(browse[i] == w[i]);
        lemma_steps(w[i].position, origin, forward);
    }
}

proof fn lemma_browse(
    order: Seq<usize>,
    count: int,
    current: int,
    origin: int,
    forward: bool,
    budget: BudgetModel,
    target: PlanTarget,
)
    requires
        0 <= origin < count,
    ensures
        browse_targets(
            order,
            optional_browse(current, origin, count, forward, order, budget),
        ).contains(target) <==> exists|p: int| #[trigger]
            aims_far(target, order, count, origin, forward, p) && needed(
                order,
                count,
                current,
                origin,
                forward,
                budget,
                p,
            ) <= budget.limit,
{
    let chosen = optional_browse(current, origin, count, forward, order, budget);
    let targets = browse_targets(order, chosen);
    if targets.contains(target) {
        let i = choose|i: int| 0 <= i < targets.len() && targets[i] == target;
        let p = chosen[i].position;
        lemma_candidates(order, count, current, origin, forward, budget, i);
        lemma_admitted(order, count, current, origin, forward, budget, p);
        assert(holds(chosen, p));
        assert(aims_far(target, order, count, origin, forward, p));
    }
    if exists|p: int| #[trigger]
        aims_far(target, order, count, origin, forward, p) && needed(
            order,
            count,
            current,
            origin,
            forward,
            budget,
            p,
        ) <= budget.limit {
        let p = choose|p: int| #[trigger]
            aims_far(target, order, count, origin, forward, p) && needed(
                order,
                count,
                current,
                origin,
                forward,
                budget,
                p,
            ) <= budget.limit;
        lemma_admitted(order, count, current, origin, forward, budget, p);
        let i = choose|i: int| 0 <= i < chosen.len() && (#[trigger] chosen[i]).position == p;
        lemma_candidates(order, count, current, origin, forward, budget, i);
        assert(targets[i] == target);
    }
}

proof fn lemma_prefetch(
    order: Seq<usize>,
    count: int,
    current: int,
    origin: int,
    forward: bool,
    budget: BudgetModel,
    target: PlanTarget,
)
    requires
        0 <= origin < count,
    ensures
        prefetch_targets(
            order,
            optional_full(current, origin, count, forward, order, budget),
        ).contains(target) <==> exists|p: int| #[trigger]
            aims_to_prefetch(target, order, count, origin, forward, p) && needed(
                order,
                count,
                current,
                origin,
                forward,
                budget,
                p,
            ) <= budget.limit,
{
    let chosen = optional_full(current, origin, count, forward, order, budget);
    let targets = prefetch_targets(order, chosen);
    if targets.contains(target) {
        let i = choose|i: int| 0 <= i < targets.len() && targets[i] == target;
        let p = chosen[i].position;
        lemma_candidates(order, count, current, origin, forward, budget, i);
        lemma_admitted(order, count, current, origin, forward, budget, p);
        assert(holds(chosen, p));
        assert(aims_to_prefetch(target, order, count, origin, forward, p));
    }
    if exists|p: int| #[trigger]
        aims_to_prefetch(target, order, count, origin, forward, p) && needed(
            order,
            count,
            current,
            origin,
            forward,
            budget,
            p,
        ) <= budget.limit {
        let p = choose|p: int| #[trigger]
            aims_to_prefetch(target, order, count, origin, forward, p) && needed(
                order,
                count,
                current,
                origin,
                forward,
                budget,
                p,
            ) <= budget.limit;
        lemma_admitted(order, count, current, origin, forward, budget, p);
        let i = choose|i: int| 0 <= i < chosen.len() && (#[trigger] chosen[i]).position == p;
        lemma_candidates(order, count, current, origin, forward, budget, i);
        assert(targets[i] == target);
    }
}

/// Whether navigation in a folder shows images in some order from some image and
/// position: the order is what is left of the sequence, the image is the current
/// one or the last of the folder, and the position is where the order shows it.
pub open spec fn navigates(
    len: usize,
    current: usize,
    sequence: Seq<usize>,
    order: Seq<usize>,
    image: int,
    origin: int,
) -> bool {
    &&& len > 0
    &&& is_left_of(len as int, sequence, order)
    &&& image == if current < len {
        current as int
    } else {
        len - 1
    }
    &&& starts_at(order, shown_count(len as int, order), image, origin)
}

/// An adaptive navigation wave holds these targets and no others: the current image
/// in both tiers; the images beside it in both tiers; of the farther ones, in Browse,
/// those of the interactive window for which the bytes needed to reach them fit the
/// Browse budget, and, in Full, those for which they fit the Full budget; and, where
/// they are asked for, the images outside of the window to warm.
pub proof fn law_adaptive_wave_holds_what_fits(
    len: usize,
    current: usize,
    direction: i8,
    zoomed: bool,
    sequence: &[usize],
    budgets: &NavigationPrefetchBudgets,
    include_warm: bool,
    targets: Vec<PlanTarget>,
    order: Seq<usize>,
    image: int,
    origin: int,
    target: PlanTarget,
)
    requires
        call_ensures(
            build_plan_targets_with_full_prefetch,
            (len, current, direction, zoomed, sequence, budgets, include_warm),
            targets,
        ),
        navigates(len, current, sequence@, order, image, origin),
    ensures
        ({
            let forward = direction >= 0;
            let count = shown_count(len as int, order);
            let full = budgets.full_model();
            let browse = budgets.browse_model();
            targets@.contains(target) <==> {
                ||| aims_at_current(target, image, zoomed)
                ||| exists|p: int| #[trigger]
                    aims_near(target, order, count, image, origin, forward, 2, p)
                ||| exists|p: int| #[trigger]
                    aims_far(target, order, count, origin, forward, p) && needed(
                        order,
                        count,
                        image,
                        origin,
                        forward,
                        browse,
                        p,
                    ) <= browse.limit
                ||| exists|p: int| #[trigger]
                    aims_to_prefetch(target, order, count, origin, forward, p) && needed(
                        order,
                        count,
                        image,
                        origin,
                        forward,
                        full,
                        p,
                    ) <= full.limit
                ||| include_warm && exists|other: int| #[trigger]
                    aims_to_warm(target, len as int, image, forward, other)
            }
        }),
{
    let forward = direction >= 0;
    let count = shown_count(len as int, order);
    let full = budgets.full_model();
    let browse = budgets.browse_model();
    lemma_left_of_is_normalized(len as int, sequence@, order);
    lemma_origin(len as int, order, image, origin);
    let a = current_targets(image, zoomed);
    let b = near_targets(
        image,
        origin,
        forward,
        order,
        near_first(origin),
        near_end(origin, count),
    );
    let c = browse_targets(order, optional_browse(image, origin, count, forward, order, browse));
    let d = prefetch_targets(order, optional_full(image, origin, count, forward, order, full));
    let e = if include_warm {
        warm_targets(image, forward, len as int)
    } else {
        seq![]
    };
    assert(targets@ == a + b + c + d + e);
    lemma_in_sum(a, b, target);
    lemma_in_sum(a + b, c, target);
    lemma_in_sum(a + b + c, d, target);
    lemma_in_sum(a + b + c + d, e, target);
    assert(a.contains(target) <==> aims_at_current(target, image, zoomed)) by {
        assert(a[0] == aims(image, Tier::Browse, 0, 0, PlanKind::Display));
        assert(a[1] == aims(
            image,
            Tier::Full,
            if zoomed {
                0
            } else {
                1
            },
            0,
            PlanKind::Display,
        ));
        if aims_at_current(target, image, zoomed) {
            assert(target == a[0] || target == a[1]);
        }
    }
    lemma_near(
        order,
        count,
        image,
        origin,
        forward,
        near_first(origin),
        near_end(origin, count),
        target,
    );
    assert(b.contains(target) <==> exists|p: int| #[trigger]
        aims_near(target, order, count, image, origin, forward, 2, p)) by {
        if exists|p: int| #[trigger]
            aims_near(target, order, count, image, origin, forward, 2, p) {
            let p = choose|p: int| #[trigger]
                aims_near(target, order, count, image, origin, forward, 2, p);
            assert(near_first(origin) <= p < near_end(origin, count));
        }
    }
    lemma_browse(order, count, image, origin, forward, browse, target);
    lemma_prefetch(order, count, image, origin, forward, full, target);
    lemma_warm(image, forward, len as int, len as int, target);
    if include_warm {
        assert(e.contains(target) <==> exists|other: int| #[trigger]
            aims_to_warm(target, len as int, image, forward, other));
    } else {
        assert(!e.contains(target));
    }
}

/// Beyond the neighbors, the image at a position has a Browse target in the adaptive
/// wave exactly where it is no farther than the interactive window and the bytes
/// needed to reach it fit the Browse budget, and a Full target exactly where those
/// fit the Full budget, however many images the folder holds.
pub proof fn law_positions_within_budget_are_covered(
    len: usize,
    current: usize,
    direction: i8,
    zoomed: bool,
    sequence: &[usize],
    budgets: &NavigationPrefetchBudgets,
    include_warm: bool,
    targets: Vec<PlanTarget>,
    order: Seq<usize>,
    image: int,
    origin: int,
    position: int,
)
    requires
        call_ensures(
            build_plan_targets_with_full_prefetch,
            (len, current, direction, zoomed, sequence, budgets, include_warm),
            targets,
        ),
        navigates(len, current, sequence@, order, image, origin),
        0 <= position < shown_count(len as int, order),
        apart(position, origin) >= 2,
    ensures
        ({
            let forward = direction >= 0;
            let count = shown_count(len as int, order);
            let full = budgets.full_model();
            let browse = budgets.browse_model();
            let distance = steps(position, origin, forward);
            &&& targets@.contains(
                aims(shown(order, position), Tier::Browse, 4, distance, PlanKind::Display),
            ) <==> distance <= 24 && needed(
                order,
                count,
                image,
                origin,
                forward,
                browse,
                position,
            ) <= browse.limit
            &&& targets@.contains(
                aims(shown(order, position), Tier::Full, 5, distance, PlanKind::Prefetch),
            ) <==> needed(order, count, image, origin, forward, full, position) <= full.limit
        }),
{
    let forward = direction >= 0;
    let count = shown_count(len as int, order);
    let distance = steps(position, origin, forward);
    let browsed = aims(shown(order, position), Tier::Browse, 4, distance, PlanKind::Display);
    let fetched = aims(shown(order, position), Tier::Full, 5, distance, PlanKind::Prefetch);
    law_adaptive_wave_holds_what_fits(
        len,
        current,
        direction,
        zoomed,
        sequence,
        budgets,
        include_warm,
        targets,
        order,
        image,
        origin,
        browsed,
    );
    law_adaptive_wave_holds_what_fits(
        len,
        current,
        direction,
        zoomed,
        sequence,
        budgets,
        include_warm,
        targets,
        order,
        image,
        origin,
        fetched,
    );
    assert forall|p: int| 0 <= p < count && #[trigger] shown(order, p) as usize == shown(
        order,
        position,
    ) as usize implies p == position by {
        if order.len() > 0 {
            if p < position {
                assert(order[p] != order[position]);
            } else if position < p {
                assert(order[position] != order[p]);
            }
        }
    }
    if distance <= 24 {
        assert(aims_far(browsed, order, count, origin, forward, position));
    }
    assert(aims_to_prefetch(fetched, order, count, origin, forward, position));
    assert forall|p: int| #[trigger]
        aims_far(browsed, order, count, origin, forward, p) implies p == position by {
        assert(shown(order, p) as usize == shown(order, position) as usize);
    }
    assert forall|p: int| #[trigger]
        aims_to_prefetch(fetched, order, count, origin, forward, p) implies p == position by {
        assert(shown(order, p) as usize == shown(order, position) as usize);
    }
    assert(browsed.class == 4 && browsed.kind == PlanKind::Display);
    assert(fetched.class == 5 && fetched.kind == PlanKind::Prefetch);
    assert forall|p: int|
        !#[trigger] aims_near(browsed, order, count, image, origin, forward, 2, p) by {}
    assert forall|p: int|
        !#[trigger] aims_near(fetched, order, count, image, origin, forward, 2, p) by {}
    assert forall|p: int| !#[trigger] aims_far(fetched, order, count, origin, forward, p) by {}
    assert forall|p: int|
        !#[trigger] aims_to_prefetch(browsed, order, count, origin, forward, p) by {}
    assert forall|p: int| !#[trigger] aims_to_warm(browsed, len as int, image, forward, p) by {}
    assert forall|p: int| !#[trigger] aims_to_warm(fetched, len as int, image, forward, p) by {}
    assert(!aims_at_current(browsed, image, zoomed));
    assert(!aims_at_current(fetched, image, zoomed));
}

// ---------------------------------------------------------------------------
// Order of the adaptive wave
// ---------------------------------------------------------------------------

/// Whether one target may stand before another one: more urgent classes come first,
/// and beyond the neighbors nearer images do.
pub open spec fn in_turn(first: PlanTarget, second: PlanTarget) -> bool {
    &&& first.class <= second.class
    &&& first.class == second.class && (first.class == 4 || first.class == 5)
        ==> first.effective_distance <= second.effective_distance
}

/// Whether targets stand in turn.
pub open spec fn are_in_turn(targets: Seq<PlanTarget>) -> bool {
    forall|i: int, j: int|
        0 <= i < j < targets.len() ==> in_turn(#[trigger] targets[i], #[trigger] targets[j])
}

proof fn lemma_turns(a: Seq<PlanTarget>, b: Seq<PlanTarget>, class: u8)
    requires
        are_in_turn(a),
        are_in_turn(b),
        forall|i: int| 0 <= i < a.len() ==> (#[trigger] a[i]).class < class,
        forall|i: int| 0 <= i < b.len() ==> (#[trigger] b[i]).class >= class,
    ensures
        are_in_turn(a + b),
{
    assert forall|i: int, j: int| 0 <= i < j < (a + b).len() implies in_turn(
        #[trigger] (a + b)[i],
        #[trigger] (a + b)[j],
    ) by {
        if i < a.len() && j >= a.len() {
            assert((a + b)[i] == a[i]);
            assert((a + b)[j] == b[j - a.len()]);
        } else if i >= a.len() {
            assert((a + b)[i] == b[i - a.len()]);
            assert((a + b)[j] == b[j - a.len()]);
        } else {
            assert((a + b)[i] == a[i]);
            assert((a + b)[j] == a[j]);
        }
    }
}

proof fn lemma_near_class(
    order: Seq<usize>,
    current: int,
    origin: int,
    forward: bool,
    first: int,
    end: int,
)
    ensures
        forall|i: int|
            0 <= i < near_targets(current, origin, forward, order, first, end).len() ==> (
            #[trigger] near_targets(current, origin, forward, order, first, end)[i]).class == 2,
    decreases end - first,
{
    if first < end {
        lemma_near_class(order, current, origin, forward, first, end - 1);
    }
}

proof fn lemma_warm_class(current: int, forward: bool, end: int)
    ensures
        forall|i: int|
            0 <= i < warm_targets(current, forward, end).len() ==> (#[trigger] warm_targets(
                current,
                forward,
                end,
            )[i]).class == 6,
    decreases end,
{
    if end > 0 {
        lemma_warm_class(current, forward, end - 1);
    }
}

/// An adaptive navigation wave starts with the two targets of the current image and
/// goes on in turn: the images beside it, the Browse wave from the nearest on, the
/// Full wave from the nearest on, and what is to be warmed. A folder without images
/// has none.
pub proof fn law_adaptive_wave_goes_in_turn(
    len: usize,
    current: usize,
    direction: i8,
    zoomed: bool,
    sequence: &[usize],
    budgets: &NavigationPrefetchBudgets,
    include_warm: bool,
    targets: Vec<PlanTarget>,
    order: Seq<usize>,
    image: int,
    origin: int,
)
    requires
        call_ensures(
            build_plan_targets_with_full_prefetch,
            (len, current, direction, zoomed, sequence, budgets, include_warm),
            targets,
        ),
    ensures
        len == 0 ==> targets@.len() == 0,
        navigates(len, current, sequence@, order, image, origin) ==> {
            &&& targets@.len() >= 2
            &&& targets@[0] == aims(image, Tier::Browse, 0, 0, PlanKind::Display)
            &&& aims_at_current(targets@[1], image, zoomed) && targets@[1].tier == Tier::Full
            &&& are_in_turn(targets@)
        },
{
    if navigates(len, current, sequence@, order, image, origin) {
        let forward = direction >= 0;
        let count = shown_count(len as int, order);
        let full = budgets.full_model();
        let browse = budgets.browse_model();
        lemma_left_of_is_normalized(len as int, sequence@, order);
        lemma_origin(len as int, order, image, origin);
        let a = current_targets(image, zoomed);
        let b = near_targets(
            image,
            origin,
            forward,
            order,
            near_first(origin),
            near_end(origin, count),
        );
        let browsed = optional_browse(image, origin, count, forward, order, browse);
        let fetched = optional_full(image, origin, count, forward, order, full);
        let c = browse_targets(order, browsed);
        let d = prefetch_targets(order, fetched);
        let e = if include_warm {
            warm_targets(image, forward, len as int)
        } else {
            seq![]
        };
        assert(targets@ == a + b + c + d + e);
        lemma_near_class(
            order,
            image,
            origin,
            forward,
            near_first(origin),
            near_end(origin, count),
        );
        lemma_warm_class(image, forward, len as int);
        lemma_far_in_turn(order, image, origin, count, forward, browse);
        lemma_far_in_turn(order, image, origin, count, forward, full);
        lemma_all_in_turn(a, b, c, d, e);
        assert(targets@[0] == a[0]);
        assert(targets@[1] == a[1]);
    }
}

proof fn lemma_all_in_turn(
    a: Seq<PlanTarget>,
    b: Seq<PlanTarget>,
    c: Seq<PlanTarget>,
    d: Seq<PlanTarget>,
    e: Seq<PlanTarget>,
)
    requires
        are_in_turn(a),
        are_in_turn(c),
        are_in_turn(d),
        forall|i: int| 0 <= i < a.len() ==> (#[trigger] a[i]).class < 2,
        forall|i: int| 0 <= i < b.len() ==> (#[trigger] b[i]).class == 2,
        forall|i: int| 0 <= i < c.len() ==> (#[trigger] c[i]).class == 4,
        forall|i: int| 0 <= i < d.len() ==> (#[trigger] d[i]).class == 5,
        forall|i: int| 0 <= i < e.len() ==> (#[trigger] e[i]).class == 6,
    ensures
        are_in_turn(a + b + c + d + e),
{
    lemma_turns(a, b, 2);
    let ab = a + b;
    assert forall|i: int| 0 <= i < ab.len() implies (#[trigger] ab[i]).class < 4 by {
        if i >= a.len() {
            assert(ab[i] == b[i - a.len()]);
        }
    }
    lemma_turns(ab, c, 4);
    let abc = ab + c;
    assert forall|i: int| 0 <= i < abc.len() implies (#[trigger] abc[i]).class < 5 by {
        if i >= ab.len() {
            assert(abc[i] == c[i - ab.len()]);
        } else {
            assert(abc[i] == ab[i]);
        }
    }
    lemma_turns(abc, d, 5);
    let abcd = abc + d;
    assert forall|i: int| 0 <= i < abcd.len() implies (#[trigger] abcd[i]).class < 6 by {
        if i >= abc.len() {
            assert(abcd[i] == d[i - abc.len()]);
        } else {
            assert(abcd[i] == abc[i]);
        }
    }
    lemma_turns(abcd, e, 6);
}

proof fn lemma_far_in_turn(
    order: Seq<usize>,
    current: int,
    origin: int,
    count: int,
    forward: bool,
    budget: BudgetModel,
)
    requires
        0 <= origin < count,
    ensures
        ({
            let c = browse_targets(
                order,
                optional_browse(current, origin, count, forward, order, budget),
            );
            let d = prefetch_targets(
                order,
                optional_full(current, origin, count, forward, order, budget),
            );
            &&& are_in_turn(c)
            &&& are_in_turn(d)
            &&& forall|i: int| 0 <= i < c.len() ==> (#[trigger] c[i]).class == 4
            &&& forall|i: int| 0 <= i < d.len() ==> (#[trigger] d[i]).class == 5
        }),
{
    let browsed = optional_browse(current, origin, count, forward, order, budget);
    let fetched = optional_full(current, origin, count, forward, order, budget);
    let c = browse_targets(order, browsed);
    let d = prefetch_targets(order, fetched);
    lemma_nearer_first(order, current, origin, count, forward, budget);
    assert forall|i: int, j: int| 0 <= i < j < c.len() implies in_turn(
        #[trigger] c[i],
        #[trigger] c[j],
    ) by {
        assert(browsed[i].distance as u32 <= browsed[j].distance as u32);
    }
    assert forall|i: int, j: int| 0 <= i < j < d.len() implies in_turn(
        #[trigger] d[i],
        #[trigger] d[j],
    ) by {
        assert(fetched[i].distance as u32 <= fetched[j].distance as u32);
    }
}

proof fn lemma_nearer_first(
    order: Seq<usize>,
    current: int,
    origin: int,
    count: int,
    forward: bool,
    budget: BudgetModel,
)
    requires
        0 <= origin < count,
    ensures
        ({
            let full = optional_full(current, origin, count, forward, order, budget);
            let browse = optional_browse(current, origin, count, forward, order, budget);
            &&& forall|i: int, j: int|
                0 <= i < j < full.len() ==> (#[trigger] full[i]).distance as u32 <= (
                #[trigger] full[j]).distance as u32
            &&& forall|i: int, j: int|
                0 <= i < j < browse.len() ==> (#[trigger] browse[i]).distance as u32 <= (
                #[trigger] browse[j]).distance as u32
        }),
{
    let full = optional_full(current, origin, count, forward, order, budget);
    let browse = optional_browse(current, origin, count, forward, order, budget);
    let w = wave(origin, count, forward, 2, 2);
    let used = mandatory_cost(current, order, budget, near_first(origin), near_end(origin, count));
    law_wave_is_ordered_and_complete(origin, count, forward);
    law_browse_wave_stays_in_window(origin, count, forward);
    law_budget_admits_the_longest_affordable_prefix(w, order, budget, used);
    law_budget_admits_the_longest_affordable_prefix(within_window(w), order, budget, used);
    assert forall|i: int, j: int| 0 <= i < j < w.len() implies (#[trigger] w[i]).distance as u32 <= (
    #[trigger] w[j]).distance as u32 by {
        assert(weight(w[i].position, origin, forward) <= weight(w[j].position, origin, forward));
        lemma_steps(w[i].position, origin, forward);
        lemma_steps(w[j].position, origin, forward);
    }
    assert forall|i: int, j: int| 0 <= i < j < full.len() implies (#[trigger] full[i]).distance
        as u32 <= (#[trigger] full[j]).distance as u32 by {
        assert(full[i] == w[i] && full[j] == w[j]);
    }
    assert forall|i: int, j: int| 0 <= i < j < browse.len() implies (#[trigger] browse[i]).distance
        as u32 <= (#[trigger] browse[j]).distance as u32 by {
        assert(browse[i] == within_window(w)[i] && browse[j] == within_window(w)[j]);
        assert(browse[i] == w[i] && browse[j] == w[j]);
    }
}

/// Budgets hold the numbers that they were made with: the limit, the measured sizes,
/// and an estimate of at least one byte.
pub proof fn law_budgets_hold_their_numbers(
    limit: u64,
    fallback: u64,
    known: HashMap<usize, u64>,
    full: FullPrefetchBudget,
    browse: BrowsePrefetchBudget,
    budgets: NavigationPrefetchBudgets,
    image: usize,
)
    requires
        call_ensures(FullPrefetchBudget::new, (limit, fallback, known), full),
        call_ensures(BrowsePrefetchBudget::new, (limit, fallback, known), browse),
        call_ensures(NavigationPrefetchBudgets::new, (full, browse), budgets),
    ensures
        budgets.full_model().limit == limit,
        budgets.browse_model().limit == limit,
        ({
            let size = if known@.dom().contains(image) {
                known@[image]
            } else {
                fallback
            };
            &&& bytes(budgets.full_model(), image as int) == if size == 0 {
                1
            } else {
                size as int
            }
            &&& bytes(budgets.browse_model(), image as int) == if size == 0 {
                1
            } else {
                size as int
            }
        }),
{
}

/// What normalization leaves of a sequence is every image of the folder in it once, in
/// the order of first occurrence.
pub proof fn law_normalization_keeps_first_occurrences(len: int, sequence: Seq<usize>)
    requires
        0 <= len,
    ensures
        is_left_of(len, sequence, normalized(len as nat, sequence)),
    decreases sequence.len(),
{
    let order = normalized(len as nat, sequence);
    lemma_normalized(len as nat, sequence);
    assert forall|p: int| 0 <= p < order.len() implies (#[trigger] order[p]) < len
        && sequence.contains(order[p]) by {
        assert(order.contains(order[p]));
    }
    assert forall|i: int| 0 <= i < sequence.len() && (#[trigger] sequence[i])
        < len implies order.contains(sequence[i]) by {
        assert(sequence.contains(sequence[i]));
    }
    if sequence.len() > 0 {
        let rest = sequence.drop_last();
        let front = normalized(len as nat, rest);
        law_normalization_keeps_first_occurrences(len, rest);
        assert forall|p: int, q: int| 0 <= p < q < order.len() implies precedes(
            sequence,
            #[trigger] order[p],
            #[trigger] order[q],
        ) by {
            if q < front.len() {
                assert(front[p] == order[p] && front[q] == order[q]);
                assert(precedes(rest, front[p], front[q]));
                let i = choose|i: int|
                    0 <= i < rest.len() && #[trigger] rest[i] == front[p] && forall|j: int|
                        0 <= j <= i ==> rest[j] != front[q];
                assert(sequence[i] == order[p]);
                assert forall|j: int| 0 <= j <= i implies sequence[j] != order[q] by {
                    assert(rest[j] == sequence[j]);
                }
            } else {
                assert(front[p] == order[p]);
                assert(order[q] == sequence.last());
                lemma_normalized(len as nat, rest);
                assert(rest.contains(front[p]));
                let i = choose|i: int| 0 <= i < rest.len() && rest[i] == front[p];
                assert(sequence[i] == order[p]);
                assert forall|j: int| 0 <= j <= i implies sequence[j] != order[q] by {
                    assert(rest[j] == sequence[j]);
                    if rest[j] == order[q] {
                        assert(rest.contains(order[q]));
                        assert(front.contains(order[q]));
                    }
                }
            }
        }
    }
}

/// Whatever the sequence, a folder with images is navigated in some order from some
/// position.
pub proof fn law_every_folder_is_navigated(len: usize, current: usize, sequence: Seq<usize>)
    requires
        len > 0,
    ensures
        exists|order: Seq<usize>, image: int, origin: int| #[trigger]
            navigates(len, current, sequence, order, image, origin),
{
    let order = normalized(len as nat, sequence);
    law_normalization_keeps_first_occurrences(len as int, sequence);
    let image = if current < len {
        current as int
    } else {
        len - 1
    };
    let origin = origin_of(image, order);
    law_navigation_starts_at_the_current_image(len as int, image, order);
    assert(starts_at(order, shown_count(len as int, order), image, origin));
    assert(navigates(len, current, sequence, order, image, origin));
}

// ---------------------------------------------------------------------------
// The wave without budgets
// ---------------------------------------------------------------------------

/// Whether a target is one of an image of the folder, other than the current one,
/// that is shown beside the origin or in the interactive window.
pub open spec fn aims_at_shown(
    target: PlanTarget,
    len: int,
    order: Seq<usize>,
    count: int,
    current: int,
    origin: int,
    forward: bool,
    position: int,
) -> bool {
    &&& 0 <= position < count && shown(order, position) != current && shown(order, position) < len
    &&& {
        ||| aims_near(target, order, count, current, origin, forward, 3, position)
        ||| aims_far(target, order, count, origin, forward, position)
    }
}

proof fn lemma_scan(
    len: int,
    order: Seq<usize>,
    count: int,
    current: int,
    origin: int,
    forward: bool,
    end: int,
    target: PlanTarget,
)
    requires
        0 <= end <= count,
        0 <= origin < count,
        0 <= len,
    ensures
        scan_targets(len as nat, current, origin, forward, order, 0, end).contains(target)
            <==> exists|p: int|
            0 <= p < end && #[trigger] aims_at_shown(
                target,
                len,
                order,
                count,
                current,
                origin,
                forward,
                p,
            ),
    decreases end,
{
    if end > 0 {
        let p = end - 1;
        let rest = scan_targets(len as nat, current, origin, forward, order, 0, p);
        let here = neighbor_targets(len as nat, current, origin, forward, order, p);
        lemma_scan(len, order, count, current, origin, forward, p, target);
        lemma_steps(p, origin, forward);
        lemma_in_sum(rest, here, target);
        assert(here.contains(target) <==> aims_at_shown(
            target,
            len,
            order,
            count,
            current,
            origin,
            forward,
            p,
        )) by {
            let distance = steps(p, origin, forward);
            let image = shown(order, p);
            if shown(order, p) != current && shown(order, p) < len {
                if apart(p, origin) <= 1 {
                    assert(here[0] == aims(image, Tier::Browse, 2, distance, PlanKind::Display));
                    assert(here[1] == aims(image, Tier::Full, 3, distance, PlanKind::Display));
                    if aims_near(target, order, count, current, origin, forward, 3, p) {
                        assert(target == here[0] || target == here[1]);
                    }
                } else if distance <= 24 {
                    assert(here[0] == aims(image, Tier::Browse, 4, distance, PlanKind::Display));
                    if aims_far(target, order, count, origin, forward, p) {
                        assert(target == here[0]);
                    }
                }
            }
        }
    }
}

/// A navigation wave without budgets holds these targets and no others: the current
/// image in both tiers; every image that is shown beside it in both tiers; every other
/// image shown in the interactive window in Browse; and, where they are asked for,
/// the images outside of the window to warm. Entries of the sequence that are no
/// image of the folder are passed over. The current image comes first, and nothing
/// comes after what is to be warmed.
pub proof fn law_plain_wave_holds_the_window(
    len: usize,
    current: usize,
    direction: i8,
    zoomed: bool,
    sequence: &[usize],
    include_warm: bool,
    targets: Vec<PlanTarget>,
    image: int,
    origin: int,
    target: PlanTarget,
)
    requires
        call_ensures(
            build_plan_targets,
            (len, current, direction, zoomed, sequence, include_warm),
            targets,
        ),
        len > 0,
        image == if current < len {
            current as int
        } else {
            len - 1
        },
        starts_at(sequence@, shown_count(len as int, sequence@), image, origin),
    ensures
        ({
            let forward = direction >= 0;
            let count = shown_count(len as int, sequence@);
            &&& targets@.contains(target) <==> {
                ||| aims_at_current(target, image, zoomed)
                ||| exists|p: int| #[trigger]
                    aims_at_shown(
                        target,
                        len as int,
                        sequence@,
                        count,
                        image,
                        origin,
                        forward,
                        p,
                    )
                ||| include_warm && exists|other: int| #[trigger]
                    aims_to_warm(target, len as int, image, forward, other)
            }
            &&& targets@.len() >= 2
            &&& targets@[0] == aims(image, Tier::Browse, 0, 0, PlanKind::Display)
            &&& aims_at_current(targets@[1], image, zoomed) && targets@[1].tier == Tier::Full
            &&& forall|i: int, j: int|
                0 <= i < j < targets@.len() && (#[trigger] targets@[i]).kind == PlanKind::Warm ==> (
                #[trigger] targets@[j]).kind == PlanKind::Warm
        }),
{
    let forward = direction >= 0;
    let count = shown_count(len as int, sequence@);
    lemma_origin(len as int, sequence@, image, origin);
    let a = current_targets(image, zoomed);
    let b = scan_targets(len as nat, image, origin, forward, sequence@, 0, count);
    let e = if include_warm {
        warm_targets(image, forward, len as int)
    } else {
        seq![]
    };
    assert(targets@ == a + b + e);
    lemma_in_sum(a, b, target);
    lemma_in_sum(a + b, e, target);
    assert(a[0] == aims(image, Tier::Browse, 0, 0, PlanKind::Display));
    assert(a[1] == aims(
        image,
        Tier::Full,
        if zoomed {
            0
        } else {
            1
        },
        0,
        PlanKind::Display,
    ));
    assert(a.contains(target) <==> aims_at_current(target, image, zoomed)) by {
        if aims_at_current(target, image, zoomed) {
            assert(target == a[0] || target == a[1]);
        }
    }
    lemma_scan(len as int, sequence@, count, image, origin, forward, count, target);
    lemma_warm(image, forward, len as int, len as int, target);
    if include_warm {
        assert(e.contains(target) <==> exists|other: int| #[trigger]
            aims_to_warm(target, len as int, image, forward, other));
    } else {
        assert(!e.contains(target));
    }
    assert(targets@[0] == a[0]);
    assert(targets@[1] == a[1]);
    lemma_scan_is_shown(len as nat, sequence@, image, origin, forward, 0, count);
    lemma_all_warm(image, forward, len as int);
    assert forall|i: int, j: int|
        0 <= i < j < targets@.len() && (#[trigger] targets@[i]).kind == PlanKind::Warm implies (
    #[trigger] targets@[j]).kind == PlanKind::Warm by {
        let n = (a + b).len();
        if i < n {
            if i < 2 {
                assert(targets@[i] == a[i]);
            } else {
                assert(targets@[i] == b[i - 2]);
            }
        } else {
            assert(targets@[j] == e[j - n]);
        }
    }
}

proof fn lemma_scan_is_shown(
    len: nat,
    order: Seq<usize>,
    current: int,
    origin: int,
    forward: bool,
    first: int,
    end: int,
)
    ensures
        forall|i: int|
            0 <= i < scan_targets(len, current, origin, forward, order, first, end).len() ==> (
            #[trigger] scan_targets(len, current, origin, forward, order, first, end)[i]).kind
                == PlanKind::Display,
    decreases end - first,
{
    if first < end {
        lemma_scan_is_shown(len, order, current, origin, forward, first, end - 1);
    }
}

proof fn lemma_all_warm(current: int, forward: bool, end: int)
    ensures
        forall|i: int|
            0 <= i < warm_targets(current, forward, end).len() ==> (#[trigger] warm_targets(
                current,
                forward,
                end,
            )[i]).kind == PlanKind::Warm,
    decreases end,
{
    if end > 0 {
        lemma_all_warm(current, forward, end - 1);
    }
}

// ---------------------------------------------------------------------------
// The Full working set
// ---------------------------------------------------------------------------

/// Whether a selection is one of an image beside the origin.
pub open spec fn selects_near(
    selection: FullSelection,
    order: Seq<usize>,
    count: int,
    current: int,
    origin: int,
    forward: bool,
    position: int,
) -> bool {
    &&& 0 <= position < count && apart(position, origin) <= 1 && shown(order, position) != current
    &&& selection.index == shown(order, position) as usize
    &&& selection.effective_distance == held(steps(position, origin, forward))
    &&& selection.required
}

/// Whether a selection is one of an image beyond the neighbors.
pub open spec fn selects_far(
    selection: FullSelection,
    order: Seq<usize>,
    count: int,
    origin: int,
    forward: bool,
    position: int,
) -> bool {
    &&& 0 <= position < count && apart(position, origin) >= 2
    &&& selection.index == shown(order, position) as usize
    &&& selection.effective_distance == held(steps(position, origin, forward))
    &&& !selection.required
}

proof fn lemma_selected_near(
    order: Seq<usize>,
    count: int,
    current: int,
    origin: int,
    forward: bool,
    first: int,
    end: int,
    selection: FullSelection,
)
    requires
        0 <= origin < count,
        first == near_first(origin),
        first <= end <= near_end(origin, count),
    ensures
        ({
            let chosen = mandatory_full(current, origin, forward, order, first, end);
            &&& chosen.len() > 0
            &&& chosen[0] == (FullSelection {
                index: current as usize,
                effective_distance: 0,
                required: true,
            })
            &&& forall|i: int| 0 <= i < chosen.len() ==> (#[trigger] chosen[i]).required
            &&& chosen.contains(selection) <==> selection == chosen[0] || exists|p: int|
                first <= p < end && #[trigger] selects_near(
                    selection,
                    order,
                    count,
                    current,
                    origin,
                    forward,
                    p,
                )
        }),
    decreases end - first,
{
    let chosen = mandatory_full(current, origin, forward, order, first, end);
    if first < end {
        let p = end - 1;
        let rest = mandatory_full(current, origin, forward, order, first, p);
        lemma_selected_near(order, count, current, origin, forward, first, p, selection);
        lemma_steps(p, origin, forward);
        if index_at(order, p) != current {
            let last = chosen[chosen.len() - 1];
            assert(chosen =~= rest.push(last));
            assert(selects_near(last, order, count, current, origin, forward, p));
            assert(selects_near(selection, order, count, current, origin, forward, p) <==> selection
                == last);
            if rest.contains(selection) {
                let i = choose|i: int| 0 <= i < rest.len() && rest[i] == selection;
                assert(chosen[i] == selection);
            }
            if chosen.contains(selection) && selection != last {
                let i = choose|i: int| 0 <= i < chosen.len() && chosen[i] == selection;
                assert(rest[i] == selection);
            }
        }
    } else {
        assert(chosen.contains(chosen[0]));
    }
}

/// A Full working set holds the current image first, then the images beside it, and
/// of the farther ones those for which the bytes needed to reach them fit the budget;
/// it holds no others, and what is required comes before what is not.
pub proof fn law_full_working_set_holds_what_fits(
    len: usize,
    current: usize,
    origin: usize,
    direction: i8,
    sequence: &[usize],
    budget: &FullPrefetchBudget,
    selected: Vec<FullSelection>,
    selection: FullSelection,
)
    requires
        call_ensures(
            adaptive_full_selections,
            (len, current, origin, direction, sequence, budget),
            selected,
        ),
        len > 0,
        origin < shown_count(len as int, sequence@),
    ensures
        ({
            let forward = direction >= 0;
            let count = shown_count(len as int, sequence@);
            let first = FullSelection { index: current, effective_distance: 0, required: true };
            &&& selected@.len() > 0 && selected@[0] == first
            &&& selected@.contains(selection) <==> {
                ||| selection == first
                ||| exists|p: int| #[trigger]
                    selects_near(
                        selection,
                        sequence@,
                        count,
                        current as int,
                        origin as int,
                        forward,
                        p,
                    )
                ||| exists|p: int| #[trigger]
                    selects_far(selection, sequence@, count, origin as int, forward, p) && needed(
                        sequence@,
                        count,
                        current as int,
                        origin as int,
                        forward,
                        budget@,
                        p,
                    ) <= budget@.limit
            }
            &&& forall|i: int, j: int|
                0 <= i < j < selected@.len() && (#[trigger] selected@[j]).required ==> (
                #[trigger] selected@[i]).required
        }),
{
    let forward = direction >= 0;
    let count = shown_count(len as int, sequence@);
    let near = mandatory_full(
        current as int,
        origin as int,
        forward,
        sequence@,
        near_first(origin as int),
        near_end(origin as int, count),
    );
    let chosen = optional_full(
        current as int,
        origin as int,
        count,
        forward,
        sequence@,
        budget@,
    );
    let far = full_selections(sequence@, chosen);
    assert(selected@ == near + far);
    lemma_selected_near(
        sequence@,
        count,
        current as int,
        origin as int,
        forward,
        near_first(origin as int),
        near_end(origin as int, count),
        selection,
    );
    if exists|p: int| #[trigger]
        selects_near(selection, sequence@, count, current as int, origin as int, forward, p) {
        let p = choose|p: int| #[trigger]
            selects_near(selection, sequence@, count, current as int, origin as int, forward, p);
        assert(near_first(origin as int) <= p < near_end(origin as int, count));
        assert(near.contains(selection));
    }
    if near.contains(selection) {
        let i = choose|i: int| 0 <= i < near.len() && near[i] == selection;
        assert(selected@[i] == selection);
    }
    if exists|p: int| #[trigger]
        selects_far(selection, sequence@, count, origin as int, forward, p) && needed(
            sequence@,
            count,
            current as int,
            origin as int,
            forward,
            budget@,
            p,
        ) <= budget@.limit {
        let p = choose|p: int| #[trigger]
            selects_far(selection, sequence@, count, origin as int, forward, p) && needed(
                sequence@,
                count,
                current as int,
                origin as int,
                forward,
                budget@,
                p,
            ) <= budget@.limit;
        lemma_admitted(
            sequence@,
            count,
            current as int,
            origin as int,
            forward,
            budget@,
            p,
        );
        let i = choose|i: int| 0 <= i < chosen.len() && (#[trigger] chosen[i]).position == p;
        lemma_candidates(
            sequence@,
            count,
            current as int,
            origin as int,
            forward,
            budget@,
            i,
        );
        assert(far[i] == selection);
        assert(selected@[near.len() + i] == selection);
    }
    if selected@.contains(selection) && !near.contains(selection) {
        let k = choose|k: int| 0 <= k < selected@.len() && selected@[k] == selection;
        if k < near.len() {
            assert(near[k] == selection);
        }
        let i = k - near.len();
        assert(far[i] == selection);
        let p = chosen[i].position;
        lemma_candidates(
            sequence@,
            count,
            current as int,
            origin as int,
            forward,
            budget@,
            i,
        );
        lemma_admitted(
            sequence@,
            count,
            current as int,
            origin as int,
            forward,
            budget@,
            p,
        );
        assert(holds(chosen, p));
        assert(selects_far(selection, sequence@, count, origin as int, forward, p));
    }
    assert(selected@[0] == near[0]);
    assert forall|i: int, j: int|
        0 <= i < j < selected@.len() && (#[trigger] selected@[j]).required implies (
    #[trigger] selected@[i]).required by {
        if j >= near.len() {
            assert(selected@[j] == far[j - near.len()]);
        } else {
            assert(selected@[i] == near[i]);
        }
    }
}

/// Navigation starts where a display order first shows the current image, or at the
/// first position where it does not show it.
pub proof fn law_navigation_starts_at_the_current_image(len: int, current: int, order: Seq<usize>)
    requires
        0 <= current < len <= usize::MAX,
    ensures
        starts_at(order, shown_count(len, order), current, origin_of(current, order)),
{
    let origin = origin_of(current, order);
    lemma_origin_in_order(len as nat, current, order);
    if order.len() > 0 {
        order.index_of_first_ensures(current as usize);
        assert forall|p: int| 0 <= p < origin implies #[trigger] shown(order, p) != current by {
            assert(order[p] != current as usize);
        }
        if shown(order, origin) != current {
            assert forall|p: int| 0 <= p < order.len() implies #[trigger] shown(order, p)
                != current by {
                if order[p] == current as usize {
                    assert(order.contains(order[p]));
                }
            }
        }
    }
}

/// Budgets made of shared observations hold the same numbers as those made of their own.
pub proof fn law_observed_budgets_hold_the_same_numbers(
    limit: u64,
    fallback: u64,
    known: HashMap<usize, u64>,
    shared: std::sync::Arc<HashMap<usize, u64>>,
    full: FullPrefetchBudget,
    observed_full: FullPrefetchBudget,
    browse: BrowsePrefetchBudget,
    observed_browse: BrowsePrefetchBudget,
)
    requires
        shared@ == known@,
        call_ensures(FullPrefetchBudget::new, (limit, fallback, known), full),
        call_ensures(
            FullPrefetchBudget::from_observations,
            (limit, fallback, shared),
            observed_full,
        ),
        call_ensures(BrowsePrefetchBudget::new, (limit, fallback, known), browse),
        call_ensures(
            BrowsePrefetchBudget::from_observations,
            (limit, fallback, shared),
            observed_browse,
        ),
    ensures
        observed_full@ == full@,
        observed_browse@ == browse@,
{
}

} // verus!
