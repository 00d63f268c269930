//! The priority queue with cooperative cancellation.

use viewr_core::jobs::ids::JobId;
use viewr_core::jobs::pipeline::{
    deferred_bytes, panic_completion, warm_job_completion, worker_panic_event, DevelopCompletion,
    Event,
};
use viewr_core::jobs::persistence::PersistenceEnqueue;
use viewr_core::jobs::queue::{Action, JobCompletion, JobQueue, Quality};
use viewr_core::types::Tier;

fn job(id: JobId, class: u8, dist: u32) -> (JobId, u8, u32, Action) {
    (id, class, dist, Action::Thumb)
}

fn warm(id: JobId) -> (JobId, Action) {
    (id, Action::WarmDevelop(Quality::Browse))
}

#[test]
fn claimed_job_panic_clears_in_flight_and_the_next_job_runs() {
    let mut queue = JobQueue::new();
    queue.extend(vec![
        ((3, Tier::Thumb), 0, 0, Action::Metadata),
        ((4, Tier::Thumb), 1, 0, Action::Thumb),
    ]);

    let (failed_id, failed_action, failed_token) = queue.pop().unwrap();
    assert_eq!(
        (failed_id, failed_action),
        ((3, Tier::Thumb), Action::Metadata)
    );
    let completion = panic_completion(failed_action);
    let event = worker_panic_event(failed_id, failed_action, Some("deterministic decoder panic"));
    assert_eq!(deferred_bytes(completion), None);
    assert!(queue.finish_with_publication(failed_token, completion, event.is_some()));
    assert_eq!(queue.in_flight_len(), 0);
    assert!(matches!(
        event,
        Some(Event::MetadataFailed { index: 3, error })
            if error == "worker panicked: deterministic decoder panic"
    ));

    let (next_id, next_action, next_token) = queue.pop().unwrap();
    assert_eq!((next_id, next_action), ((4, Tier::Thumb), Action::Thumb));
    assert!(!queue.finish_with_publication(next_token, JobCompletion::Complete, false));
    assert_eq!(queue.in_flight_len(), 0);
}

#[test]
fn cancelled_worker_panic_does_not_publish_a_stale_failure() {
    let mut queue = JobQueue::new();
    queue.extend(vec![((3, Tier::Thumb), 0, 0, Action::Metadata)]);
    let (id, action, token) = queue.pop().unwrap();
    token.cancel(&mut queue);
    let event = worker_panic_event(id, action, Some("stale decoder panic"));

    assert!(event.is_some());
    assert!(!queue.finish_with_publication(token, panic_completion(action), event.is_some()));
    assert_eq!(queue.in_flight_len(), 0);
}

#[test]
fn panic_event_enqueue_precedes_reentrant_replan_notification() {
    let mut queue = JobQueue::new();
    let id = (3, Tier::Thumb);
    queue.extend(vec![(id, 0, 0, Action::Metadata)]);
    let (claimed_id, action, token) = queue.pop().unwrap();
    let event = worker_panic_event(claimed_id, action, Some("decoder panic before replan"));
    assert!(matches!(
        &event,
        Some(Event::MetadataFailed { index: 3, error })
            if error == "worker panicked: decoder panic before replan"
    ));

    assert!(queue.finish_with_publication(token, panic_completion(action), event.is_some()));
    queue.set_plan(vec![(id, 0, 0, Action::Metadata)], false);

    let (replacement_id, replacement_action, _) = queue.pop().unwrap();
    assert_eq!((replacement_id, replacement_action), (id, Action::Metadata));
}

#[test]
fn ordinary_event_enqueue_precedes_reentrant_replan_notification() {
    let mut queue = JobQueue::new();
    let id = (3, Tier::Browse);
    queue.extend(vec![(id, 0, 0, Action::Metadata)]);
    let (_, _, token) = queue.pop().unwrap();

    assert!(queue.owns_publication(token));
    queue.set_plan(vec![(id, 0, 0, Action::Develop(Quality::Browse))], false);

    assert!(token.cancelled(&queue));
    assert!(queue.pop().is_none());
    queue.finish(token);
    let (replacement_id, replacement_action, replacement_token) = queue.pop().unwrap();
    assert_eq!(
        (replacement_id, replacement_action),
        (id, Action::Develop(Quality::Browse))
    );
    queue.finish(replacement_token);
}

#[test]
fn ordinary_event_publication_rejects_a_replanned_generation() {
    let mut queue = JobQueue::new();
    let id = (3, Tier::Browse);
    queue.extend(vec![(id, 0, 0, Action::Metadata)]);
    let (_, _, stale_token) = queue.pop().unwrap();
    queue.set_plan(vec![(id, 0, 0, Action::Develop(Quality::Browse))], false);

    assert!(stale_token.cancelled(&queue));
    assert!(!queue.owns_publication(stale_token));
    assert!(queue.pop().is_none());
    queue.finish(stale_token);

    let (replacement_id, replacement_action, replacement_token) = queue.pop().unwrap();
    assert_eq!(
        (replacement_id, replacement_action),
        (id, Action::Develop(Quality::Browse))
    );
    assert!(queue.owns_publication(replacement_token));
    queue.finish(replacement_token);
}

#[test]
fn interactive_plan_precedes_persistent_background_initialized_once() {
    let mut q = JobQueue::new();
    let background = (7, Tier::Browse);
    let ignored = (8, Tier::Browse);
    let interactive = (1, Tier::Browse);
    assert!(q.initialize_background(vec![warm(background)]));
    assert!(!q.initialize_background(vec![warm(ignored)]));
    q.set_plan(vec![job(interactive, 0, 0)], false);

    let (first, action, first_token) = q.pop().unwrap();
    assert_eq!((first, action), (interactive, Action::Thumb));
    q.finish(first_token);

    let (second, action, second_token) = q.pop().unwrap();
    assert_eq!(
        (second, action),
        (background, Action::WarmDevelop(Quality::Browse))
    );
    q.finish(second_token);
    assert_eq!(q.background_len(), 0);
}

#[test]
fn foreground_replacement_requeues_cancelled_background_generation() {
    let mut q = JobQueue::new();
    let displaced = (7, Tier::Browse);
    let other = (8, Tier::Browse);
    assert!(q.initialize_background(vec![warm(displaced), warm(other)]));

    let (id, action, background_token) = q.pop().unwrap();
    assert_eq!(
        (id, action),
        (displaced, Action::WarmDevelop(Quality::Browse))
    );

    // Even a same-navigation replan must replace a warm action when this
    // exact image becomes interactive.
    q.set_plan(vec![(id, 0, 0, Action::Develop(Quality::Browse))], false);
    assert!(background_token.cancelled(&q));
    assert!(q.pop().is_none());

    // The cooperative background generation exits before the foreground
    // replacement can claim the same source file. Its canceled one-shot
    // obligation returns behind the untouched background item.
    q.finish_with(background_token, JobCompletion::RetryBackground);
    let (foreground_id, foreground_action, foreground_token) = q.pop().unwrap();
    assert_eq!(foreground_id, id);
    assert_eq!(foreground_action, Action::Develop(Quality::Browse));
    q.finish(foreground_token);

    let (next, _, next_token) = q.pop().unwrap();
    assert_eq!(next, other);
    q.finish(next_token);
    let (retried, retry_action, retry_token) = q.pop().unwrap();
    assert_eq!(
        (retried, retry_action),
        (displaced, Action::WarmDevelop(Quality::Browse))
    );
    q.finish(retry_token);
}

#[test]
fn same_navigation_replan_keeps_unrelated_background_running() {
    let mut q = JobQueue::new();
    let background = (7, Tier::Browse);
    let interactive = (1, Tier::Browse);
    assert!(q.initialize_background(vec![warm(background)]));
    let (_, _, background_token) = q.pop().unwrap();

    q.set_plan(vec![job(interactive, 0, 0)], false);
    assert!(!background_token.cancelled(&q));
    let (id, _, interactive_token) = q.pop().unwrap();
    assert_eq!(id, interactive);
    q.finish(interactive_token);
    q.finish(background_token);
}

#[test]
fn shutdown_discards_cancelled_background_retry() {
    let mut q = JobQueue::new();
    let id = (3, Tier::Browse);
    assert!(q.initialize_background(vec![warm(id)]));
    let (_, _, token) = q.pop().unwrap();

    q.close();
    assert!(token.cancelled(&q));
    q.finish(token);
    assert!(q.is_closed());
    assert_eq!(q.background_len(), 0);
    assert!(!q.background_is_running());
    assert!(q.pop().is_none());
}

#[test]
fn busy_and_saturated_warm_work_parks_until_capacity_changes() {
    assert_eq!(
        warm_job_completion(DevelopCompletion::Persistence {
            outcome: PersistenceEnqueue::Busy,
            retained_bytes: 64,
        }),
        JobCompletion::DeferBackground { required_bytes: 64 }
    );
    assert_eq!(
        warm_job_completion(DevelopCompletion::Persistence {
            outcome: PersistenceEnqueue::Saturated,
            retained_bytes: 64,
        }),
        JobCompletion::DeferBackground { required_bytes: 64 }
    );

    let mut q = JobQueue::new();
    let first = (3, Tier::Browse);
    let second = (4, Tier::Browse);
    assert!(q.initialize_background(vec![warm(first), warm(second)]));
    for expected in [first, second] {
        let (id, _, token) = q.pop().unwrap();
        assert_eq!(id, expected);
        q.finish_with(
            token,
            JobCompletion::DeferBackground { required_bytes: 64 },
        );
    }

    assert_eq!(q.background_len(), 0);
    assert_eq!(q.deferred_len(), 2);
    assert!(!q.release_one_deferred(63));
    assert!(q.release_one_deferred(64));
    assert_eq!(q.background_len(), 1);
    assert_eq!(q.deferred_len(), 1);

    let (id, _, token) = q.pop().unwrap();
    assert_eq!(id, first);
    q.finish_with(token, JobCompletion::Complete);
    assert!(q.release_one_deferred(64));
    let (id, _, token) = q.pop().unwrap();
    assert_eq!(id, second);
    q.finish_with(token, JobCompletion::Complete);

    assert_eq!(q.background_len(), 0);
    assert_eq!(q.deferred_len(), 0);
    assert!(!q.background_is_running());
}

#[test]
fn cancellation_after_persistence_handoff_does_not_redevelop_raw() {
    let mut q = JobQueue::new();
    let id = (3, Tier::Browse);
    assert!(q.initialize_background(vec![warm(id)]));
    let (_, _, token) = q.pop().unwrap();
    token.cancel(&mut q);

    let completion = warm_job_completion(DevelopCompletion::Persistence {
        outcome: PersistenceEnqueue::Queued,
        retained_bytes: 64,
    });
    assert_eq!(completion, JobCompletion::Complete);
    q.finish_with(token, completion);

    assert_eq!(q.background_len(), 0);
    assert_eq!(q.deferred_len(), 0);
    assert!(!q.background_is_running());
}

#[test]
fn pops_in_priority_order() {
    let mut q = JobQueue::new();
    q.set_plan(
        vec![
            job((2, Tier::Browse), 4, 6),
            job((0, Tier::Browse), 0, 0),
            job((1, Tier::Browse), 2, 1),
        ],
        true,
    );
    assert_eq!(q.pop().unwrap().0, (0, Tier::Browse));
    assert_eq!(q.pop().unwrap().0, (1, Tier::Browse));
    assert_eq!(q.pop().unwrap().0, (2, Tier::Browse));
}

#[test]
fn bulk_heapify_preserves_priority_and_fifo_semantics() {
    let mut q = JobQueue::new();
    let plan: Vec<_> = (0..512)
        .map(|index| {
            job(
                (index, Tier::Browse),
                ((index * 17) % 7) as u8,
                ((index * 29) % 31) as u32,
            )
        })
        .collect();
    let mut expected: Vec<_> = plan
        .iter()
        .enumerate()
        .map(|(sequence, (id, class, distance, _))| (*class, *distance, sequence, id.0))
        .collect();
    expected.sort_unstable();

    q.set_plan(plan, true);

    for (_, _, _, expected_index) in expected {
        assert_eq!(q.pop().unwrap().0, (expected_index, Tier::Browse));
    }
    assert_eq!(q.resident_jobs(), 0);
    assert!(q.queued_is_empty());
}

#[test]
fn forward_bias_orders_wave() {
    // Same class: the effective distance decides, and counting backward steps
    // three times lets +1, +2 and +3 beat -1.
    let mut q = JobQueue::new();
    q.set_plan(
        vec![
            job((9, Tier::Browse), 4, 3),
            job((11, Tier::Browse), 4, 1),
            job((12, Tier::Browse), 4, 2),
        ],
        true,
    );
    assert_eq!(q.pop().unwrap().0.0, 11);
    assert_eq!(q.pop().unwrap().0.0, 12);
    assert_eq!(q.pop().unwrap().0.0, 9);
}

#[test]
fn replan_supersedes_queued_jobs() {
    let mut q = JobQueue::new();
    q.set_plan(
        vec![job((0, Tier::Browse), 1, 0), job((1, Tier::Browse), 2, 0)],
        true,
    );
    // New plan drops job 0 entirely.
    q.set_plan(vec![job((1, Tier::Browse), 1, 0)], true);
    assert_eq!(q.pop().unwrap().0, (1, Tier::Browse));
    assert!(q.resident_jobs() == 0 || q.queued_is_empty());
    assert!(q.pop().is_none());
}

#[test]
fn urgent_thumbnail_precedes_background_without_rewriting_the_heap() {
    let mut q = JobQueue::new();
    let requested = (9, Tier::Thumb);
    let other = (1, Tier::Thumb);
    q.extend(vec![job(requested, 5, 100), job(other, 5, 1)]);
    let background_heap_len = q.resident_jobs();

    assert!(q.set_urgent(vec![(requested, Action::Thumb)]));
    assert_eq!(q.resident_jobs(), background_heap_len);
    let (first, _, first_token) = q.pop().unwrap();
    assert_eq!(first, requested);
    q.finish(first_token);

    let (second, _, second_token) = q.pop().unwrap();
    assert_eq!(second, other);
    q.finish(second_token);

    assert!(q.queued_is_empty());
    assert!(q.resident_jobs() <= 1);
    assert!(q.pop().is_none());
}

#[test]
fn urgent_thumbnail_replaces_queued_metadata_for_the_same_image() {
    let mut q = JobQueue::new();
    let requested = (9, Tier::Thumb);
    q.extend(vec![(requested, 5, 100, Action::Metadata)]);

    assert!(q.set_urgent(vec![(requested, Action::Thumb)]));
    let (id, action, token) = q.pop().unwrap();
    assert_eq!(id, requested);
    assert_eq!(action, Action::Thumb);
    q.finish(token);

    assert!(q.queued_is_empty());
    assert!(q.resident_jobs() <= 1);
    assert!(q.pop().is_none());
}

#[test]
fn urgent_thumbnail_cancels_in_flight_metadata_generation() {
    let mut q = JobQueue::new();
    let requested = (9, Tier::Thumb);
    q.extend(vec![(requested, 5, 100, Action::Metadata)]);
    let (_, action, metadata_token) = q.pop().unwrap();
    assert_eq!(action, Action::Metadata);

    assert!(q.set_urgent(vec![(requested, Action::Thumb)]));
    assert!(q.pop().is_none());
    assert!(metadata_token.cancelled(&q));
    q.finish(metadata_token);

    let (id, action, thumbnail_token) = q.pop().unwrap();
    assert_eq!(id, requested);
    assert_eq!(action, Action::Thumb);
    assert!(q.owns_publication(thumbnail_token));
    q.finish(thumbnail_token);
}

#[test]
fn replacing_urgent_viewport_drops_old_urgency_without_starvation() {
    let mut q = JobQueue::new();
    let old_viewport: Vec<_> = (0..50).map(|index| (index, Tier::Thumb)).collect();
    let newest = (999, Tier::Thumb);
    q.extend(
        old_viewport
            .iter()
            .enumerate()
            .map(|(distance, id)| job(*id, 5, distance as u32))
            .chain([job(newest, 5, 999)])
            .collect(),
    );

    assert!(q.set_urgent(
        old_viewport
            .iter()
            .copied()
            .map(|id| (id, Action::Thumb))
            .collect()
    ));
    assert!(q.set_urgent(vec![(newest, Action::Thumb)]));
    assert_eq!(q.urgent_len(), 1);

    let (first, _, token) = q.pop().unwrap();
    assert_eq!(first, newest);
    q.finish(token);
}

#[test]
fn urgent_viewport_reuses_a_live_thumbnail_job() {
    let mut q = JobQueue::new();
    let id = (7, Tier::Thumb);
    q.extend(vec![job(id, 5, 10)]);
    let (_, _, live_token) = q.pop().unwrap();

    assert!(q.set_urgent(vec![(id, Action::Thumb)]));
    assert!(!live_token.cancelled(&q));
    assert_eq!(q.urgent_len(), 0);
    assert_eq!(q.resident_jobs(), 0);
}

#[test]
fn urgent_viewport_is_rejected_after_queue_shutdown() {
    let mut q = JobQueue::new();
    q.close();
    assert!(!q.set_urgent(vec![((0, Tier::Thumb), Action::Thumb)]));
}

#[test]
fn replan_cancels_unwanted_in_flight_and_keeps_wanted() {
    let mut q = JobQueue::new();
    q.set_plan(
        vec![job((0, Tier::Browse), 1, 0), job((1, Tier::Browse), 2, 0)],
        true,
    );
    let (id0, _, token0) = q.pop().unwrap();
    assert_eq!(id0, (0, Tier::Browse));
    // Job 0 is now in flight. A replan that wants only job 1 cancels it.
    q.set_plan(vec![job((1, Tier::Browse), 1, 0)], true);
    assert!(token0.cancelled(&q));

    // Re-wanting job 0 while its cancelled instance is still in flight:
    // a fresh instance must be queued (the dying one won't publish).
    q.set_plan(vec![job((0, Tier::Browse), 1, 0)], true);
    assert!(!q.queued_is_empty());

    // But a LIVE in-flight job is never duplicated.
    let mut q2 = JobQueue::new();
    q2.set_plan(vec![job((7, Tier::Browse), 1, 0)], true);
    let _live = q2.pop().unwrap();
    q2.set_plan(vec![job((7, Tier::Browse), 1, 0)], true);
    assert!(q2.queued_is_empty());
}

#[test]
fn cancelled_generation_must_exit_before_the_same_id_is_reclaimed() {
    let mut q = JobQueue::new();
    let id = (7, Tier::Full);
    q.set_plan(vec![(id, 0, 0, Action::Develop(Quality::Full))], true);
    let (_, _, stale) = q.pop().unwrap();

    q.set_plan(Vec::new(), true);
    q.set_plan(vec![(id, 0, 0, Action::Develop(Quality::Full))], true);
    assert!(stale.cancelled(&q));
    assert!(q.pop().is_none());

    q.finish(stale);
    let (replacement_id, _, replacement) = q.pop().unwrap();
    assert_eq!(replacement_id, id);
    assert_ne!(stale, replacement);
    q.finish(replacement);
}

#[test]
fn speculative_full_uses_one_worker_and_yields_to_lower_priority_foreground() {
    let mut q = JobQueue::new();
    q.set_plan(
        vec![
            ((0, Tier::Full), 5, 1, Action::PrefetchFull),
            ((1, Tier::Full), 5, 2, Action::PrefetchFull),
            ((2, Tier::Browse), 6, 0, Action::Develop(Quality::Browse)),
        ],
        true,
    );

    let (first, first_action, first_token) = q.pop().unwrap();
    assert_eq!(
        (first, first_action),
        ((0, Tier::Full), Action::PrefetchFull)
    );
    let (second, second_action, second_token) = q.pop().unwrap();
    assert_eq!(
        (second, second_action),
        ((2, Tier::Browse), Action::Develop(Quality::Browse))
    );
    assert!(q.pop().is_none());

    q.finish(first_token);
    let (third, third_action, third_token) = q.pop().unwrap();
    assert_eq!(
        (third, third_action),
        ((1, Tier::Full), Action::PrefetchFull)
    );
    q.finish(second_token);
    q.finish(third_token);
}

#[test]
fn failed_speculative_full_is_suppressed_until_foreground_demand() {
    let mut q = JobQueue::new();
    let failed = (7, Tier::Full);
    q.set_plan(vec![(failed, 5, 1, Action::PrefetchFull)], true);
    let (_, _, failed_token) = q.pop().unwrap();
    q.finish_with(failed_token, JobCompletion::SuppressSpeculative);

    let foreground = (8, Tier::Browse);
    q.set_plan(
        vec![
            (failed, 5, 1, Action::PrefetchFull),
            (foreground, 0, 0, Action::Develop(Quality::Browse)),
        ],
        false,
    );
    let (claimed, _, foreground_token) = q.pop().unwrap();
    assert_eq!(claimed, foreground);
    assert!(q.pop().is_none());
    q.finish(foreground_token);

    q.set_plan(vec![(failed, 0, 0, Action::Develop(Quality::Full))], false);
    let (retried, action, retry_token) = q.pop().unwrap();
    assert_eq!((retried, action), (failed, Action::Develop(Quality::Full)));
    q.finish(retry_token);
}

#[test]
fn navigation_change_retries_a_failed_speculative_full_target() {
    let mut q = JobQueue::new();
    let failed = (7, Tier::Full);
    q.set_plan(vec![(failed, 5, 1, Action::PrefetchFull)], true);
    let (_, _, failed_token) = q.pop().unwrap();
    q.finish_with(failed_token, JobCompletion::SuppressSpeculative);

    q.set_plan(vec![(failed, 5, 1, Action::PrefetchFull)], true);
    let (retried, action, retry_token) = q.pop().unwrap();
    assert_eq!((retried, action), (failed, Action::PrefetchFull));
    q.finish(retry_token);
}

#[test]
fn folder_warming_uses_at_most_one_worker() {
    let mut q = JobQueue::new();
    assert!(q.initialize_background(vec![
        ((0, Tier::Browse), Action::WarmDevelop(Quality::Browse)),
        ((1, Tier::Browse), Action::WarmDevelop(Quality::Browse)),
    ]));

    let (first, _, first_token) = q.pop().unwrap();
    assert_eq!(first, (0, Tier::Browse));
    assert!(q.pop().is_none());

    q.finish(first_token);
    let (second, _, second_token) = q.pop().unwrap();
    assert_eq!(second, (1, Tier::Browse));
    q.finish(second_token);
}

#[test]
fn live_speculative_full_can_be_promoted_without_restart() {
    let mut q = JobQueue::new();
    let id = (7, Tier::Full);
    q.set_plan(vec![(id, 5, 1, Action::PrefetchFull)], true);
    let (_, _, token) = q.pop().unwrap();

    q.set_plan(vec![(id, 0, 0, Action::Develop(Quality::Full))], true);
    assert!(!token.cancelled(&q));
    assert!(q.pop().is_none());
    q.finish(token);
}

#[test]
fn demoted_full_work_exits_before_optional_full_replacement() {
    let mut q = JobQueue::new();
    let demoted = (7, Tier::Full);
    let other = (8, Tier::Full);
    q.set_plan(vec![(demoted, 0, 0, Action::Develop(Quality::Full))], true);
    let (_, _, display_token) = q.pop().unwrap();

    q.set_plan(
        vec![
            (demoted, 5, 1, Action::PrefetchFull),
            (other, 5, 2, Action::PrefetchFull),
        ],
        true,
    );
    assert!(display_token.cancelled(&q));
    assert!(q.pop().is_none());

    q.finish(display_token);
    let (claimed, action, replacement_token) = q.pop().unwrap();
    assert!(matches!(claimed, id if id == demoted || id == other));
    assert_eq!(action, Action::PrefetchFull);
    assert!(q.pop().is_none());
    q.finish(replacement_token);
}

#[test]
fn small_processing_pool_serializes_optional_full_and_folder_warm_lanes() {
    let mut q = JobQueue::new_with_parallel_background_lanes(false);
    q.initialize_background(vec![(
        (9, Tier::Browse),
        Action::WarmDevelop(Quality::Browse),
    )]);
    q.set_plan(vec![((7, Tier::Full), 5, 1, Action::PrefetchFull)], false);

    let (full, _, full_token) = q.pop().unwrap();
    assert_eq!(full, (7, Tier::Full));
    assert!(q.pop().is_none());
    q.finish(full_token);

    let (warm_id, warm_action, warm_token) = q.pop().unwrap();
    assert_eq!(warm_id, (9, Tier::Browse));
    assert_eq!(warm_action, Action::WarmDevelop(Quality::Browse));
    q.finish(warm_token);
}

#[test]
fn replan_replaces_live_job_when_action_changes() {
    let mut q = JobQueue::new();
    let id = (7, Tier::Browse);
    q.set_plan(
        vec![(id, 6, 20, Action::WarmDevelop(Quality::Browse))],
        true,
    );
    let (_, action, warm_token) = q.pop().unwrap();
    assert_eq!(action, Action::WarmDevelop(Quality::Browse));

    q.set_plan(vec![(id, 0, 0, Action::Develop(Quality::Browse))], true);
    assert!(warm_token.cancelled(&q));
    assert!(q.pop().is_none());
    q.finish(warm_token);

    let (_, action, display_token) = q.pop().unwrap();
    assert_eq!(action, Action::Develop(Quality::Browse));
    assert!(!display_token.cancelled(&q));
    assert!(q.owns_publication(display_token));
}

#[test]
fn equal_priority_jobs_are_fifo() {
    let mut q = JobQueue::new();
    q.set_plan(
        vec![
            job((0, Tier::Browse), 1, 1),
            job((1, Tier::Browse), 1, 1),
            job((2, Tier::Browse), 1, 1),
        ],
        true,
    );
    assert_eq!(q.pop().unwrap().0.0, 0);
    assert_eq!(q.pop().unwrap().0.0, 1);
    assert_eq!(q.pop().unwrap().0.0, 2);
}

#[test]
fn cancel_token_is_monotonic_and_idempotent() {
    let mut q = JobQueue::new();
    q.extend(vec![job((0, Tier::Thumb), 0, 0)]);
    let (_, _, token) = q.pop().unwrap();
    assert!(!token.cancelled(&q));
    token.cancel(&mut q);
    token.cancel(&mut q);
    assert!(token.cancelled(&q));
    q.finish(token);
    assert!(token.cancelled(&q));
}

#[test]
fn navigation_change_cancels_running_background_work() {
    let mut q = JobQueue::new();
    assert!(q.initialize_background(vec![warm((7, Tier::Browse))]));
    let (_, _, token) = q.pop().unwrap();
    assert!(q.background_is_running());
    q.set_plan(vec![job((1, Tier::Browse), 0, 0)], true);
    assert!(token.cancelled(&q));
    q.finish_with(token, JobCompletion::RetryBackground);
    assert_eq!(q.background_len(), 1);
}

#[test]
fn closed_queue_gives_out_and_accepts_nothing() {
    let mut q = JobQueue::new();
    q.set_plan(vec![job((0, Tier::Browse), 0, 0)], true);
    q.close();
    assert!(q.pop().is_none());
    q.extend(vec![job((1, Tier::Thumb), 0, 0)]);
    q.set_plan(vec![job((2, Tier::Browse), 0, 0)], true);
    assert!(!q.initialize_background(vec![warm((3, Tier::Browse))]));
    assert!(!q.release_one_deferred(usize::MAX));
    assert_eq!(q.resident_jobs(), 0);
    assert!(q.pop().is_none());
    assert!(q.has_room(1000));
}

#[test]
fn running_full_work_satisfies_only_what_it_produces() {
    assert!(Action::PrefetchFull.compatible_with(Action::Develop(Quality::Full)));
    assert!(Action::PrefetchFull.compatible_with(Action::Rehydrate));
    assert!(!Action::PrefetchFull.compatible_with(Action::Develop(Quality::Browse)));
    assert!(!Action::Develop(Quality::Full).compatible_with(Action::PrefetchFull));
    assert!(Action::Thumb.compatible_with(Action::Thumb));
    assert!(Action::PrefetchFull.is_speculative_full());
    assert!(!Action::Rehydrate.is_speculative_full());
}

#[test]
fn whole_plans_are_claimed_in_order_with_live_tokens() {
    let mut q = JobQueue::new();
    let plan = vec![
        ((0, Tier::Full), 3, 1, Action::Develop(Quality::Full)),
        ((1, Tier::Browse), 0, 7, Action::Rehydrate),
        ((2, Tier::Browse), 0, 2, Action::Develop(Quality::Browse)),
        ((3, Tier::Thumb), 3, 1, Action::Thumb),
        ((4, Tier::Thumb), 0, 2, Action::Metadata),
    ];
    q.set_plan(plan.clone(), true);
    let mut tokens = Vec::new();
    for position in [2, 4, 1, 0, 3] {
        let (id, action, token) = q.pop().unwrap();
        assert_eq!((id, action), (plan[position].0, plan[position].3));
        tokens.push(token);
    }
    assert!(tokens.iter().all(|token| !token.cancelled(&q)));
    assert!((1..tokens.len()).all(|i| tokens[i].generation > tokens[i - 1].generation));
    assert!(q.pop().is_none());
}

#[test]
fn claims_never_start_beside_what_bars_them() {
    let mut q = JobQueue::new_with_parallel_background_lanes(false);
    q.initialize_background(vec![warm((9, Tier::Browse)), warm((8, Tier::Browse))]);
    let (_, _, background) = q.pop().unwrap();
    assert!(q.background_is_running());
    q.set_plan(
        vec![
            ((7, Tier::Full), 5, 1, Action::PrefetchFull),
            ((6, Tier::Full), 5, 2, Action::PrefetchFull),
        ],
        false,
    );
    assert!(q.pop().is_none());
    q.finish(background);
    let (id, action, speculative) = q.pop().unwrap();
    assert_eq!((id, action), ((7, Tier::Full), Action::PrefetchFull));
    assert!(q.pop().is_none());
    q.finish(speculative);
    assert_eq!(q.pop().unwrap().0, (6, Tier::Full));
}

#[test]
fn background_lane_hands_out_what_it_was_given() {
    let mut q = JobQueue::new();
    q.set_plan(vec![((7, Tier::Full), 5, 1, Action::PrefetchFull)], false);
    q.initialize_background(vec![((9, Tier::Full), Action::PrefetchFull)]);
    assert_eq!(q.pop().unwrap().0, (7, Tier::Full));
    assert_eq!(q.pop().unwrap().0, (9, Tier::Full));
    assert!(q.background_is_running());
}
