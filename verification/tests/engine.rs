//! Scheduling state of a folder.

use std::collections::{HashMap, HashSet};

use viewr_core::jobs::engine::{
    benchmark_jpeg_quality, jpeg_workers, resolve_worker_threads_for_available,
    BenchmarkMetadataQueue, BenchmarkNavigationQueue, Engine, EngineOptions, CACHE_JPEG_QUALITY,
};
use viewr_core::jobs::ids::{IdMap, JobId};
use viewr_core::jobs::navigation::{
    background_warm_jobs, desired_full_entries, navigation_jobs, navigation_pins, outward_order,
    quality_for, CacheFacts, NavState, NavigationOrder,
};
use viewr_core::jobs::queue::{Action, Quality};
use viewr_core::planning::{
    BrowsePrefetchBudget, FullPrefetchBudget, NavigationPrefetchBudgets, PlanKind, PlanTarget,
};
use viewr_core::types::Tier;

const ABSENT: CacheFacts = CacheFacts {
    has_rgba: false,
    has_jpeg: false,
    known_present: false,
};

fn budgets(full: u64, browse: u64, each: u64) -> NavigationPrefetchBudgets {
    NavigationPrefetchBudgets::new(
        FullPrefetchBudget::new(full, each, HashMap::new()),
        BrowsePrefetchBudget::new(browse, each, HashMap::new()),
    )
}

fn at(current: usize) -> NavState {
    NavState {
        current,
        direction: 1,
        zoomed: false,
    }
}

#[test]
fn worker_thread_limits_resolve_against_available_parallelism() {
    assert_eq!(resolve_worker_threads_for_available(0, 8), 8);
    assert_eq!(resolve_worker_threads_for_available(1, 8), 1);
    assert_eq!(resolve_worker_threads_for_available(4, 8), 4);
    assert_eq!(resolve_worker_threads_for_available(64, 8), 8);
    assert_eq!(resolve_worker_threads_for_available(0, 0), 1);
    assert_eq!(resolve_worker_threads_for_available(64, 0), 1);
}

#[test]
fn options_are_kept_in_range() {
    let automatic = EngineOptions::default();
    assert_eq!(automatic.worker_threads(), None);
    assert_eq!(automatic.jpeg_quality(), CACHE_JPEG_QUALITY);
    assert_eq!(automatic.with_jpeg_quality(10).jpeg_quality(), 80);
    assert_eq!(automatic.with_jpeg_quality(90).jpeg_quality(), 90);
    assert_eq!(automatic.with_jpeg_quality(200).jpeg_quality(), 100);
    assert_eq!(automatic.with_worker_threads(3, 8).worker_threads(), Some(3));
    assert_eq!(automatic.with_worker_threads(30, 8).worker_threads(), Some(8));
    assert_eq!(benchmark_jpeg_quality(Tier::Full), 97);
    assert_eq!([jpeg_workers(0), jpeg_workers(4), jpeg_workers(64)], [1, 4, 10]);
}

#[test]
fn navigation_pins_preserve_full_for_current_and_near_window() {
    let pins = navigation_pins(5, 2, 2, &[]);
    assert_eq!(pins.len(), 9);
    let full: Vec<_> = pins
        .iter()
        .filter(|(_, tier)| *tier == Tier::Full)
        .copied()
        .collect();
    assert_eq!(full, [(1, Tier::Full), (2, Tier::Full), (3, Tier::Full)]);
}

#[test]
fn filtered_pins_follow_visible_neighbors() {
    let pins = navigation_pins(10, 4, 1, &[1, 4, 8]);
    let browse: Vec<_> = pins
        .iter()
        .filter(|(_, tier)| *tier == Tier::Browse)
        .map(|(index, _)| *index)
        .collect();
    assert_eq!(browse, [1, 4, 8]);
    assert!(!pins.iter().any(|(index, _)| [3, 5].contains(index)));
}

#[test]
fn persistent_warm_jobs_are_a_valid_folder_permutation() {
    for len in 0_usize..=32 {
        for start in 0..=len.saturating_add(1) {
            let jobs = background_warm_jobs(len, start);
            assert_eq!(jobs.len(), len);
            assert!(jobs.iter().all(|((index, tier), action)| {
                *index < len
                    && *tier == Tier::Browse
                    && *action == Action::WarmDevelop(Quality::Browse)
            }));
            let mut indices: Vec<_> = jobs.into_iter().map(|(id, _)| id.0).collect();
            indices.sort_unstable();
            indices.dedup();
            assert_eq!(indices, (0..len).collect::<Vec<_>>());
        }
    }
}

#[test]
fn filter_sequence_change_invalidates_navigation_generation() {
    let mut order = NavigationOrder::new();
    let nav = NavState {
        current: 4,
        direction: 1,
        zoomed: false,
    };
    assert!(order.update_navigation(nav));
    assert!(!order.update_navigation(nav));

    order.replace_indices(10, vec![1, 4, 8]);
    assert_eq!(order.indices(), [1, 4, 8]);
    assert!(order.update_navigation(nav));
}

#[test]
fn navigation_order_normalizes_filtered_indices_once() {
    let mut order = NavigationOrder::new();
    order.replace_indices(10, vec![usize::MAX, 4, 5, 5, 6, usize::MAX - 1]);

    assert_eq!(order.indices(), [4, 5, 6]);
    assert_eq!(order.current_position(5), 1);
    let pins = navigation_pins(10, 5, order.current_position(5), order.indices());
    let full: Vec<_> = pins
        .into_iter()
        .filter(|(_, tier)| *tier == Tier::Full)
        .map(|(index, _)| index)
        .collect();
    assert_eq!(full, [4, 5, 6]);
}

#[test]
fn byte_bounded_browse_wave_reaches_a_resident_fixed_point() {
    let mut engine = Engine::new_with_options(100, 50, false, EngineOptions::default());
    let mut resident: HashMap<usize, u64> = HashMap::new();
    let mut final_targets = Vec::new();
    for _ in 0..3 {
        let budgets = NavigationPrefetchBudgets::new(
            FullPrefetchBudget::new(700, 100, HashMap::new()),
            BrowsePrefetchBudget::new(400, 100, resident.clone()),
        );
        final_targets = engine.navigate(at(50), &budgets).unwrap().targets;
        for target in &final_targets {
            if target.tier == Tier::Browse {
                resident.insert(target.index, 100);
            }
        }
    }

    let browse: Vec<_> = final_targets
        .iter()
        .filter(|target| target.tier == Tier::Browse)
        .map(|target| target.index)
        .collect();
    assert_eq!(browse.len(), 4);
    assert!(browse.iter().all(|index| resident.contains_key(index)));
    assert_eq!(resident.values().sum::<u64>(), 400);
}

#[test]
fn outward_order_starts_at_the_image_and_alternates() {
    let order = outward_order(5, 2);
    assert_eq!(order[0], 2);
    let distances: Vec<_> = order.iter().map(|index| index.abs_diff(2)).collect();
    assert_eq!(distances, [0, 1, 1, 2, 2]);
    assert!(outward_order(0, 3).is_empty());
    assert_eq!(outward_order(3, 9).len(), 3);
}

#[test]
fn navigation_is_normalized_and_planned() {
    let mut engine = Engine::new_with_options(100, 0, true, EngineOptions::default());
    let request = engine
        .navigate(
            NavState {
                current: 500,
                direction: -7,
                zoomed: true,
            },
            &budgets(700, 400, 100),
        )
        .unwrap();
    assert_eq!(
        request.nav,
        NavState {
            current: 99,
            direction: -1,
            zoomed: true,
        }
    );
    assert!(request.changed);
    assert!(request.pins.contains(&(98, Tier::Full)));
    let desired: HashSet<JobId> = request.desired.iter().copied().collect();
    assert!(desired.contains(&(99, Tier::Full)) && desired.contains(&(98, Tier::Full)));
    assert_eq!(desired, desired_full_entries(&request.targets).into_iter().collect());
    assert!(!engine.navigate(request.nav, &budgets(700, 400, 100)).unwrap().changed);

    let mut empty = Engine::new_with_options(0, 0, true, EngineOptions::default());
    assert!(empty.navigate(at(0), &budgets(1, 1, 1)).is_none());
}

#[test]
fn planned_navigation_fills_the_heavy_queue_and_warms_once() {
    let mut engine = Engine::new_with_options(6, 0, true, EngineOptions::default());
    let request = engine.navigate(at(2), &budgets(300, 300, 100)).unwrap();
    let facts = vec![ABSENT; request.targets.len()];
    engine.apply_navigation(request, facts);
    let (first, action, token) = engine.heavy.pop().unwrap();
    assert_eq!((first, action), ((2, Tier::Browse), Action::Rehydrate));
    engine.heavy.finish(token);
    assert_eq!(engine.heavy.background_len(), 6);

    let request = engine.navigate(at(3), &budgets(300, 300, 100)).unwrap();
    let facts = vec![ABSENT; request.targets.len()];
    engine.apply_navigation(request, facts);
    assert_eq!(engine.heavy.background_len(), 6);
}

#[test]
fn targets_become_the_cheapest_sufficient_job() {
    let target = |tier, kind| PlanTarget {
        index: 4,
        tier,
        class: 2,
        effective_distance: 9,
        kind,
    };
    let jobs = |tier, kind, facts, disk| navigation_jobs(&vec![target(tier, kind)], &vec![facts], disk);
    let resident = CacheFacts {
        has_rgba: true,
        ..ABSENT
    };
    let encoded = CacheFacts {
        has_jpeg: true,
        ..ABSENT
    };
    assert_eq!(
        jobs(Tier::Browse, PlanKind::Display, ABSENT, false),
        [((4, Tier::Browse), 2, 9, Action::Develop(Quality::Browse))]
    );
    assert_eq!(
        jobs(Tier::Full, PlanKind::Display, encoded, false),
        [((4, Tier::Full), 2, 9, Action::Rehydrate)]
    );
    assert_eq!(
        jobs(Tier::Full, PlanKind::Display, resident, false),
        [((4, Tier::Full), 3, 9, Action::PersistResident)]
    );
    assert!(jobs(Tier::Browse, PlanKind::Display, resident, true).is_empty());
    let known = CacheFacts {
        known_present: true,
        ..resident
    };
    assert!(jobs(Tier::Full, PlanKind::Display, known, true).is_empty());
    assert_eq!(
        jobs(Tier::Full, PlanKind::Prefetch, ABSENT, true),
        [((4, Tier::Full), 2, 9, Action::PrefetchFull)]
    );
    assert!(jobs(Tier::Full, PlanKind::Prefetch, resident, true).is_empty());
    assert!(jobs(Tier::Browse, PlanKind::Warm, ABSENT, true).is_empty());
    assert_eq!(quality_for(Tier::Thumb), Quality::Browse);
}

#[test]
fn thumbnails_are_demanded_by_viewport() {
    let mut engine = Engine::new_with_options(4, 1, false, EngineOptions::default());
    let (metadata, action, token) = engine.light.pop().unwrap();
    assert_eq!((metadata, action), ((1, Tier::Thumb), Action::Metadata));
    engine.light.finish(token);
    assert!(engine.set_thumbnail_demand(&[3, 9, 3]));
    assert_eq!(engine.light.urgent_len(), 1);
    let (thumb, action, _) = engine.light.pop().unwrap();
    assert_eq!((thumb, action), ((3, Tier::Thumb), Action::Thumb));
    engine.close();
    assert!(!engine.set_thumbnail_demand(&[0]));
    engine.close_persistence();
    assert!(engine.persistence.is_closed() && engine.heavy.is_closed());
}

#[test]
fn display_order_is_replaced_as_a_whole() {
    let mut engine = Engine::new_with_options(10, 0, false, EngineOptions::default());
    engine.set_sequence(vec![8, 12, 4, 8, 1]);
    let request = engine.navigate(at(4), &budgets(300, 300, 100)).unwrap();
    let pinned: Vec<_> = request
        .pins
        .iter()
        .filter(|(_, tier)| *tier == Tier::Full)
        .map(|(index, _)| *index)
        .collect();
    assert_eq!(pinned, [8, 4, 1]);
}

#[test]
fn small_limits_serialize_background_lanes() {
    let options = EngineOptions::default().with_worker_threads(2, 8);
    let mut engine = Engine::new_with_options(20, 0, true, options);
    engine
        .heavy
        .initialize_background(vec![((9, Tier::Browse), Action::WarmDevelop(Quality::Browse))]);
    engine
        .heavy
        .set_plan(vec![((7, Tier::Full), 5, 1, Action::PrefetchFull)], false);
    assert!(engine.heavy.pop().is_some());
    assert!(engine.heavy.pop().is_none());
}

#[test]
fn identities_are_kept_apart_by_tier() {
    let mut map: IdMap<u8> = IdMap::new();
    assert!(map.is_empty());
    map.insert((3, Tier::Thumb), 1);
    map.insert((3, Tier::Full), 2);
    map.insert((1, Tier::Thumb), 3);
    assert_eq!(map.get((3, Tier::Thumb)), Some(&1));
    assert_eq!(map.get((3, Tier::Full)), Some(&2));
    assert!(!map.contains((3, Tier::Browse)));
    map.remove((3, Tier::Full));
    assert!(!map.contains((3, Tier::Full)) && map.contains((1, Tier::Thumb)));
    map.clear();
    assert!(map.is_empty());
}

#[test]
fn benchmark_queues_hold_what_they_plan() {
    assert_eq!(BenchmarkMetadataQueue::new(123).resident_jobs(), 123);
    let mut queue = BenchmarkNavigationQueue::new(1000);
    assert!(queue.navigate(500) > 3);
    assert!(queue.navigate_fixed_reference(500) > 3);
    queue.set_sequence(vec![4, 5, 6]);
    assert!(queue.navigate(5) >= 6);
}

#[test]
fn constructors_differ_in_their_options_only() {
    let plain = Engine::new(3, 1, true);
    assert_eq!((plain.len, plain.disk, plain.jpeg_quality), (3, true, 97));
    assert_eq!(plain.light.resident_jobs(), 3);
    assert_eq!(Engine::new_with_jpeg_quality(3, 1, true, 85).jpeg_quality, 85);
    assert_eq!(Engine::new_with_jpeg_quality(3, 1, true, 1).jpeg_quality, 80);
}
