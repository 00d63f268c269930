//! Navigation waves and byte budgets.

use std::collections::HashMap;

use viewr_core::planning::{
    adaptive_full_selections, build_plan_targets, build_plan_targets_with_full_prefetch,
    BrowsePrefetchBudget, FullPrefetchBudget, NavigationPrefetchBudgets, PlanKind, PlanTarget,
    BROWSE_WINDOW,
};
use viewr_core::types::Tier;

fn navigation_budgets(full: FullPrefetchBudget) -> NavigationPrefetchBudgets {
    NavigationPrefetchBudgets::new(full, BrowsePrefetchBudget::new(u64::MAX, 1, HashMap::new()))
}

/// A straightforward full scan, as an oracle for the bounded interactive scan.
fn build_plan_targets_reference(
    len: usize,
    current: usize,
    direction: i8,
    zoomed: bool,
    sequence: &[usize],
    include_warm: bool,
) -> Vec<PlanTarget> {
    if len == 0 {
        return Vec::new();
    }
    let current = current.min(len - 1);
    let mut targets = Vec::new();
    {
        let mut display = |index, tier, class, effective_distance| {
            targets.push(PlanTarget {
                index,
                tier,
                class,
                effective_distance,
                kind: PlanKind::Display,
            });
        };
        display(current, Tier::Browse, 0, 0);
        display(current, Tier::Full, u8::from(!zoomed), 0);

        let current_position = if sequence.is_empty() {
            current
        } else {
            sequence
                .iter()
                .position(|&index| index == current)
                .unwrap_or_default()
        };
        for (position, index) in if sequence.is_empty() {
            (0..len).enumerate().collect::<Vec<_>>()
        } else {
            sequence.iter().copied().enumerate().collect()
        } {
            if index == current || index >= len {
                continue;
            }
            let ahead = (position > current_position) == (direction >= 0);
            let distance = position.abs_diff(current_position).min(u32::MAX as usize) as u32;
            let effective_distance = if ahead {
                distance
            } else {
                distance.saturating_mul(3)
            };
            if distance <= 1 {
                display(index, Tier::Browse, 2, effective_distance);
                display(index, Tier::Full, 3, effective_distance);
            } else if effective_distance <= BROWSE_WINDOW {
                display(index, Tier::Browse, 4, effective_distance);
            }
        }
    }

    if include_warm {
        for index in 0..len {
            if index == current {
                continue;
            }
            let ahead = (index > current) == (direction >= 0);
            let distance = index.abs_diff(current).min(u32::MAX as usize) as u32;
            let effective_distance = if ahead {
                distance
            } else {
                distance.saturating_mul(3)
            };
            if effective_distance > BROWSE_WINDOW {
                targets.push(PlanTarget {
                    index,
                    tier: Tier::Browse,
                    class: 6,
                    effective_distance,
                    kind: PlanKind::Warm,
                });
            }
        }
    }
    targets
}

fn target(targets: &[PlanTarget], index: usize, tier: Tier, kind: PlanKind) -> PlanTarget {
    *targets
        .iter()
        .find(|target| target.index == index && target.tier == tier && target.kind == kind)
        .unwrap_or_else(|| panic!("missing {kind:?} target {index}/{tier:?}: {targets:?}"))
}

#[test]
fn empty_library_has_no_targets() {
    assert!(build_plan_targets(0, 0, 1, false, &[], true).is_empty());
}

#[test]
fn bounded_scan_matches_full_scan_exhaustively() {
    for len in 0_usize..=50 {
        let sequences = [
            Vec::new(),
            (0..len).collect(),
            (0..len).filter(|index| index % 3 != 1).collect(),
        ];
        for current in 0..=len.saturating_add(1) {
            for direction in [-1, 0, 1] {
                for zoomed in [false, true] {
                    for include_warm in [false, true] {
                        for sequence in &sequences {
                            assert_eq!(
                                build_plan_targets(
                                    len,
                                    current,
                                    direction,
                                    zoomed,
                                    sequence,
                                    include_warm,
                                ),
                                build_plan_targets_reference(
                                    len,
                                    current,
                                    direction,
                                    zoomed,
                                    sequence,
                                    include_warm,
                                ),
                                "len={len}, current={current}, direction={direction}, \
                                 zoomed={zoomed}, include_warm={include_warm}, \
                                 sequence={sequence:?}"
                            );
                        }
                    }
                }
            }
        }
    }
}

#[test]
fn fit_preloads_full_while_zoom_prioritizes_it_and_clamps_index() {
    let fit = build_plan_targets(5, usize::MAX, 1, false, &[], false);
    assert_eq!(target(&fit, 4, Tier::Browse, PlanKind::Display).class, 0);
    assert_eq!(target(&fit, 4, Tier::Full, PlanKind::Display).class, 1);

    let zoomed = build_plan_targets(5, 4, 1, true, &[], false);
    assert_eq!(target(&zoomed, 4, Tier::Full, PlanKind::Display).class, 0);
}

#[test]
fn fit_and_zoomed_waves_preload_current_and_both_immediate_neighbors() {
    let fit = build_plan_targets(100, 50, 1, false, &[], true);
    let fit_full: Vec<_> = fit
        .iter()
        .filter(|target| target.tier == Tier::Full)
        .map(|target| (target.index, target.class, target.effective_distance))
        .collect();
    assert_eq!(fit_full, [(50, 1, 0), (49, 3, 3), (51, 3, 1)]);

    let zoomed = build_plan_targets(100, 50, 1, true, &[], true);
    let full: Vec<_> = zoomed
        .iter()
        .filter(|target| target.tier == Tier::Full)
        .map(|target| (target.index, target.class, target.effective_distance))
        .collect();
    assert_eq!(full, [(50, 0, 0), (49, 3, 3), (51, 3, 1)]);
}

#[test]
fn identity_wave_is_forward_biased_in_both_directions() {
    let forward = build_plan_targets(10, 4, 1, true, &[], false);
    assert_eq!(
        target(&forward, 5, Tier::Browse, PlanKind::Display).effective_distance,
        1
    );
    assert_eq!(
        target(&forward, 6, Tier::Browse, PlanKind::Display).effective_distance,
        2
    );
    assert!(
        forward
            .iter()
            .all(|target| !(target.index == 6 && target.tier == Tier::Full))
    );
    assert_eq!(
        target(&forward, 3, Tier::Browse, PlanKind::Display).effective_distance,
        3
    );
    assert_eq!(
        target(&forward, 3, Tier::Full, PlanKind::Display).effective_distance,
        3
    );

    let backward = build_plan_targets(10, 4, -1, true, &[], false);
    assert_eq!(
        target(&backward, 3, Tier::Full, PlanKind::Display).effective_distance,
        1
    );
    assert_eq!(
        target(&backward, 5, Tier::Browse, PlanKind::Display).effective_distance,
        3
    );
}

#[test]
fn filtered_sequence_controls_interactive_neighbors() {
    let targets = build_plan_targets(10, 4, 1, true, &[1, 4, 8], false);
    assert!(targets.iter().any(|target| target.index == 8));
    assert!(targets.iter().any(|target| target.index == 1));
    assert!(
        targets
            .iter()
            .all(|target| ![2, 3, 5, 6, 7].contains(&target.index))
    );
    assert_eq!(
        target(&targets, 8, Tier::Full, PlanKind::Display).effective_distance,
        1
    );
    assert_eq!(
        target(&targets, 1, Tier::Browse, PlanKind::Display).effective_distance,
        3
    );
}

#[test]
fn warm_targets_cover_only_the_far_identity_wave() {
    let targets = build_plan_targets(100, 50, 1, false, &[], true);
    assert!(
        targets
            .iter()
            .filter(|target| target.kind == PlanKind::Warm)
            .all(|target| {
                target.tier == Tier::Browse
                    && target.class == 6
                    && target.effective_distance > BROWSE_WINDOW
            })
    );
    assert_eq!(
        target(&targets, 75, Tier::Browse, PlanKind::Warm).effective_distance,
        25
    );
    assert_eq!(
        target(&targets, 41, Tier::Browse, PlanKind::Warm).effective_distance,
        27
    );
    assert!(
        targets
            .iter()
            .all(|target| !(target.index == 42 && target.kind == PlanKind::Warm))
    );
}

#[test]
fn adaptive_full_prefetch_fills_a_directional_prefix_to_its_byte_budget() {
    let budget = navigation_budgets(FullPrefetchBudget::new(700, 100, HashMap::new()));
    let targets = build_plan_targets_with_full_prefetch(100, 50, 1, false, &[], &budget, false);
    let full: Vec<_> = targets
        .iter()
        .filter(|target| target.tier == Tier::Full)
        .map(|target| (target.index, target.kind, target.effective_distance))
        .collect();

    assert_eq!(
        full,
        [
            (50, PlanKind::Display, 0),
            (49, PlanKind::Display, 3),
            (51, PlanKind::Display, 1),
            (52, PlanKind::Prefetch, 2),
            (53, PlanKind::Prefetch, 3),
            (54, PlanKind::Prefetch, 4),
            (55, PlanKind::Prefetch, 5),
        ]
    );
}

#[test]
fn browse_wave_is_capped_to_a_convergent_byte_prefix() {
    let budgets = NavigationPrefetchBudgets::new(
        FullPrefetchBudget::new(700, 100, HashMap::new()),
        BrowsePrefetchBudget::new(400, 100, HashMap::new()),
    );
    let targets =
        build_plan_targets_with_full_prefetch(100, 50, 1, false, &[], &budgets, false);
    let browse: Vec<_> = targets
        .iter()
        .filter(|target| target.tier == Tier::Browse)
        .map(|target| (target.index, target.effective_distance))
        .collect();

    assert_eq!(browse.len(), 4);
    assert!(browse.contains(&(50, 0)));
    assert!(browse.contains(&(49, 3)));
    assert!(browse.contains(&(51, 1)));
    assert!(browse.contains(&(52, 2)));
}

#[test]
fn mandatory_full_targets_survive_a_budget_shortfall_without_extras() {
    let known = HashMap::from([(49, 200), (50, 200), (51, 200)]);
    let budget = navigation_budgets(FullPrefetchBudget::new(500, 100, known));
    let targets = build_plan_targets_with_full_prefetch(100, 50, 1, false, &[], &budget, false);
    let full: Vec<_> = targets
        .iter()
        .filter(|target| target.tier == Tier::Full)
        .map(|target| (target.index, target.kind))
        .collect();

    assert_eq!(
        full,
        [
            (50, PlanKind::Display),
            (49, PlanKind::Display),
            (51, PlanKind::Display),
        ]
    );
}

#[test]
fn adaptive_full_prefetch_does_not_skip_a_nearer_nonfitting_candidate() {
    let known = HashMap::from([(49, 100), (50, 100), (51, 100), (52, 300), (53, 50)]);
    let budget = navigation_budgets(FullPrefetchBudget::new(550, 100, known));
    let targets = build_plan_targets_with_full_prefetch(100, 50, 1, false, &[], &budget, false);

    assert!(targets.iter().all(|target| {
        target.tier != Tier::Full || !matches!(target.kind, PlanKind::Prefetch)
    }));
}

#[test]
fn adaptive_full_prefetch_follows_filtered_order_in_both_directions() {
    let budget = navigation_budgets(FullPrefetchBudget::new(500, 100, HashMap::new()));
    let targets = build_plan_targets_with_full_prefetch(
        10,
        4,
        -1,
        false,
        &[9, 2, 7, 4, 8, 1],
        &budget,
        false,
    );
    let full: Vec<_> = targets
        .iter()
        .filter(|target| target.tier == Tier::Full)
        .map(|target| (target.index, target.kind, target.effective_distance))
        .collect();

    assert_eq!(
        full,
        [
            (4, PlanKind::Display, 0),
            (7, PlanKind::Display, 1),
            (8, PlanKind::Display, 3),
            (2, PlanKind::Prefetch, 2),
            (9, PlanKind::Prefetch, 3),
        ]
    );
}

#[test]
fn adaptive_full_count_scales_across_representative_sensor_sizes() {
    for megapixels in [12_u64, 24, 33, 61] {
        let full_bytes = megapixels * 1_000_000 * 4;
        for budget_bytes in [512_000_000_u64, 2_000_000_000, 4_000_000_000] {
            let budget = navigation_budgets(FullPrefetchBudget::new(
                budget_bytes,
                full_bytes,
                HashMap::new(),
            ));
            let targets =
                build_plan_targets_with_full_prefetch(100, 50, 1, false, &[], &budget, false);
            let actual = targets
                .iter()
                .filter(|target| target.tier == Tier::Full)
                .count();
            let expected = (budget_bytes / full_bytes) as usize;
            assert_eq!(
                actual,
                expected.clamp(3, 100),
                "{megapixels} MP with a {budget_bytes} byte Full budget"
            );
        }
    }
}

#[test]
fn filtered_duplicate_indices_do_not_consume_full_budget_twice() {
    let budget = navigation_budgets(FullPrefetchBudget::new(400, 100, HashMap::new()));
    let targets = build_plan_targets_with_full_prefetch(
        10,
        5,
        1,
        false,
        &[4, 5, 5, 6, 7],
        &budget,
        false,
    );
    let full: Vec<_> = targets
        .iter()
        .filter(|target| target.tier == Tier::Full)
        .map(|target| (target.index, target.kind))
        .collect();

    assert_eq!(
        full,
        [
            (5, PlanKind::Display),
            (4, PlanKind::Display),
            (6, PlanKind::Display),
            (7, PlanKind::Prefetch),
        ]
    );
}

#[test]
fn invalid_filtered_indices_do_not_displace_visible_full_neighbors() {
    let budget = navigation_budgets(FullPrefetchBudget::new(400, 100, HashMap::new()));
    let targets = build_plan_targets_with_full_prefetch(
        10,
        5,
        1,
        false,
        &[usize::MAX, 4, 5, 5, usize::MAX - 1, 6, 7],
        &budget,
        false,
    );
    let full: Vec<_> = targets
        .iter()
        .filter(|target| target.tier == Tier::Full)
        .map(|target| (target.index, target.kind))
        .collect();

    assert_eq!(
        full,
        [
            (5, PlanKind::Display),
            (4, PlanKind::Display),
            (6, PlanKind::Display),
            (7, PlanKind::Prefetch),
        ]
    );
}

#[test]
fn all_invalid_filtered_indices_normalize_to_identity_order() {
    let budget = navigation_budgets(FullPrefetchBudget::new(400, 100, HashMap::new()));
    let identity = build_plan_targets_with_full_prefetch(10, 5, 1, false, &[], &budget, false);
    let invalid = build_plan_targets_with_full_prefetch(
        10,
        5,
        1,
        false,
        &[usize::MAX, usize::MAX - 1],
        &budget,
        false,
    );

    assert_eq!(invalid, identity);
}

#[test]
fn larger_full_budgets_only_extend_the_wave() {
    let known = HashMap::from([(53, 250), (47, 40)]);
    let wave = |bytes| {
        let budget = navigation_budgets(FullPrefetchBudget::new(bytes, 100, known.clone()));
        build_plan_targets_with_full_prefetch(100, 50, 1, false, &[], &budget, false)
    };
    let mut smaller = wave(0);
    for bytes in (100..2000).step_by(100) {
        let larger = wave(bytes);
        assert_eq!(larger[..smaller.len()], smaller[..]);
        smaller = larger;
    }
    assert!(smaller.len() > wave(0).len());
}

#[test]
fn zero_estimates_plan_like_one_byte() {
    let zero = HashMap::from([(52, 0), (53, 4), (48, 0)]);
    let one = HashMap::from([(52, 1), (53, 4), (48, 1)]);
    for bytes in 0..40 {
        let wave = |fallback, known: &HashMap<usize, u64>| {
            let budgets = NavigationPrefetchBudgets::new(
                FullPrefetchBudget::new(bytes, fallback, known.clone()),
                BrowsePrefetchBudget::new(bytes, fallback, known.clone()),
            );
            build_plan_targets_with_full_prefetch(100, 50, 1, true, &[], &budgets, true)
        };
        let targets = wave(0, &zero);
        assert_eq!(targets, wave(1, &one));
        let full = targets.iter().filter(|target| target.tier == Tier::Full).count();
        assert!(full as u64 <= bytes.max(3));
    }
}

#[test]
fn interactive_wave_holds_at_most_thirty_six_targets() {
    for direction in [-1, 1] {
        let middle = build_plan_targets(1000, 500, direction, false, &[], false);
        assert_eq!(middle.len(), 36);
        let sequence: Vec<usize> = (0..1000).filter(|index| *index != 500).collect();
        let hidden = build_plan_targets(1000, 500, direction, false, &sequence, false);
        assert!(hidden.len() <= 36);
    }
}

#[test]
fn full_selection_grows_behind_its_required_part() {
    let select = |bytes| {
        let budget = FullPrefetchBudget::new(bytes, 100, HashMap::from([(6, 250)]));
        adaptive_full_selections(10, 4, 4, 1, &[], &budget)
            .iter()
            .map(|selected| (selected.index, selected.effective_distance, selected.required))
            .collect::<Vec<_>>()
    };
    let required = [(4, 0, true), (3, 3, true), (5, 1, true)];
    assert_eq!(select(0), required);
    assert_eq!(select(549), required);
    assert_eq!(select(550), [&required[..], &[(6, 2, false)]].concat());
    assert_eq!(
        select(650),
        [&required[..], &[(6, 2, false), (7, 3, false)]].concat()
    );
}
