//! The stages of a claimed job, and the persistence lane.

use std::cell::{Cell, RefCell};
use std::sync::{Arc, Mutex};

use viewr_core::jobs::ids::JobId;
use viewr_core::jobs::persistence::{
    PersistenceCompletion, PersistenceEnqueue, PersistenceQueue, PersistenceRequest,
    PERSIST_PENDING_BUDGET_BYTES, PERSIST_WRITE_ATTEMPTS,
};
use viewr_core::jobs::pipeline::{
    complete_thumb_attempt, deferred_bytes, metadata_event, next_develop_step,
    next_rehydrate_step, next_resident_step, next_retry_step, next_warm_step, panic_completion,
    persistence_follow_up, prefetch_completion, rehydrated_event, retry_backoff_millis,
    retry_persistence_write, start_job, warm_job_completion, worker_panic_event,
    DevelopCompletion, DevelopEvent, DevelopMode, DevelopStep, Event, JobStart, RehydrateEvent,
    RehydrateStep, ResidentEvent, ResidentStep, RetryStep, ThumbResult, WarmEvent, WarmStep,
};
use viewr_core::jobs::queue::{Action, JobCompletion, JobQueue, Quality};
use viewr_core::meta::FileMeta;
use viewr_core::types::{Orient, PixelBuf, Tier};

fn patterned_buf(width: u32, height: u32) -> PixelBuf {
    let mut rgba = Vec::with_capacity(width as usize * height as usize * 4);
    for y in 0..height {
        for x in 0..width {
            rgba.extend_from_slice(&[
                (x * 255 / width.max(1)) as u8,
                (y * 255 / height.max(1)) as u8,
                ((x + y) * 255 / (width + height).max(1)) as u8,
                255,
            ]);
        }
    }
    PixelBuf::new(width, height, rgba)
}

fn persistence_request(id: JobId, pixels: Arc<PixelBuf>, insert_ram: bool) -> PersistenceRequest {
    PersistenceRequest {
        id,
        pixels,
        insert_ram,
        warm_completion: !insert_ram,
    }
}

fn file_meta(camera: &str, rating: Option<u32>) -> FileMeta {
    FileMeta {
        orient: Orient::R0,
        rating,
        camera: camera.into(),
        lens: None,
        iso: None,
        shutter: None,
        aperture: None,
        focal_mm: None,
        captured: None,
    }
}

#[test]
fn non_metadata_worker_panic_is_an_image_failure_for_the_claimed_tier() {
    let event = worker_panic_event(
        (8, Tier::Full),
        Action::Rehydrate,
        Some("rehydrate invariant failed"),
    )
    .unwrap();

    assert!(matches!(
        event,
        Event::ImageFailed {
            index: 8,
            tier: Tier::Full,
            error,
        } if error == "worker panicked: rehydrate invariant failed"
    ));
}

#[test]
fn background_warm_panic_has_no_user_visible_event() {
    assert!(worker_panic_event(
        (8, Tier::Browse),
        Action::WarmDevelop(Quality::Browse),
        Some("warm decoder panic"),
    )
    .is_none());
}

#[test]
fn panic_without_a_message_is_described() {
    assert!(matches!(
        worker_panic_event((2, Tier::Thumb), Action::Thumb, None),
        Some(Event::ImageFailed { index: 2, tier: Tier::Thumb, error })
            if error == "worker panicked: non-string panic payload"
    ));
    assert!(worker_panic_event((2, Tier::Full), Action::PersistResident, None).is_none());
    assert_eq!(
        panic_completion(Action::PrefetchFull),
        JobCompletion::SuppressSpeculative
    );
    assert_eq!(panic_completion(Action::Thumb), JobCompletion::Complete);
    assert_eq!(
        deferred_bytes(JobCompletion::DeferBackground { required_bytes: 9 }),
        Some(9)
    );
}

#[test]
fn cancelled_rehydrate_cannot_publish_pixels_to_the_full_ring() {
    for event in [
        RehydrateEvent::Started,
        RehydrateEvent::RamDecoded,
        RehydrateEvent::RamMissing,
        RehydrateEvent::DiskRead,
        RehydrateEvent::DiskDecoded,
    ] {
        assert_eq!(
            next_rehydrate_step(DevelopMode::Display, true, event, true),
            RehydrateStep::Done
        );
    }
}

#[test]
fn rehydrate_rejected_by_a_new_working_set_cannot_emit_ready() {
    assert!(rehydrated_event(0, Tier::Full, false).is_none());
    assert!(matches!(
        rehydrated_event(4, Tier::Browse, true),
        Some(Event::ImageReady {
            index: 4,
            tier: Tier::Browse
        })
    ));
}

#[test]
fn resident_full_promotion_enqueues_persistence_without_redeveloping() {
    assert_eq!(
        next_resident_step(
            ResidentEvent::Started {
                has_jpeg: false,
                known_present: false,
                has_disk: false,
            },
            false,
        ),
        ResidentStep::Fetch
    );
    assert_eq!(
        next_resident_step(ResidentEvent::Fetched { resident: true }, false),
        ResidentStep::Offer
    );
    let mut persistence = PersistenceQueue::with_budget(64);
    let pixels = Arc::new(patterned_buf(2, 2));
    assert_eq!(
        persistence.enqueue(persistence_request((0, Tier::Full), pixels, true)),
        PersistenceEnqueue::Queued
    );
    assert_eq!(persistence.pending_len(), 1);
    assert!(persistence.is_pending((0, Tier::Full)));
}

#[test]
fn known_disk_persistence_is_reused_until_rehydrate_finds_it_missing() {
    let started = |known_present| ResidentEvent::Started {
        has_jpeg: false,
        known_present,
        has_disk: true,
    };
    assert_eq!(
        next_resident_step(started(false), false),
        ResidentStep::ProbeDisk
    );
    assert_eq!(
        next_resident_step(ResidentEvent::Probed { on_disk: true }, false),
        ResidentStep::RememberPresent
    );
    assert_eq!(next_resident_step(started(true), false), ResidentStep::Done);

    // A later rehydrate observes the disk miss and forgets the object.
    let display = DevelopMode::Display;
    assert_eq!(
        next_rehydrate_step(display, true, RehydrateEvent::RamMissing, false),
        RehydrateStep::ReadDisk
    );
    assert_eq!(
        next_rehydrate_step(display, true, RehydrateEvent::DiskMissing, false),
        RehydrateStep::Forget
    );
    assert_eq!(
        next_rehydrate_step(display, true, RehydrateEvent::Forgotten, false),
        RehydrateStep::Develop
    );
    assert_eq!(
        next_resident_step(ResidentEvent::Probed { on_disk: false }, false),
        ResidentStep::Fetch
    );
}

#[test]
fn replacement_generation_reuses_pixels_from_a_late_cancelled_completion() {
    let mut heavy = JobQueue::new();
    let id = (0, Tier::Full);
    heavy.set_plan(vec![(id, 0, 0, Action::Develop(Quality::Full))], true);
    let (_, action, token) = heavy.pop().unwrap();

    assert_eq!(
        start_job(action, id.1, true),
        JobStart::ReuseResident { persist: true }
    );
    heavy.finish(token);
    assert_eq!(
        start_job(Action::PrefetchFull, id.1, true),
        JobStart::ReuseResident { persist: false }
    );
}

#[test]
fn successful_thumbnail_emits_one_ready_event_without_metadata_fallback() {
    let fallback_called = Cell::new(false);
    let outcome = complete_thumb_attempt(
        7,
        Ok(ThumbResult {
            thumb: patterned_buf(3, 2),
            meta: file_meta("success camera", None),
        }),
        || {
            fallback_called.set(true);
            Err("no embedded preview or thumbnail".to_owned())
        },
    );

    assert!(!fallback_called.get());
    assert_eq!(outcome.installed.as_ref().map(|thumb| thumb.width), Some(3));
    assert_eq!(outcome.events.len(), 1);
    assert!(matches!(
        &outcome.events[0],
        Event::ThumbReady { index: 7, meta } if meta.camera == "success camera"
    ));
}

#[test]
fn failed_thumbnail_still_emits_failure_and_recovers_metadata() {
    let fallback_called = Cell::new(false);
    let outcome = complete_thumb_attempt(
        11,
        Err("no embedded preview or thumbnail".to_owned()),
        || {
            fallback_called.set(true);
            Ok(file_meta("metadata camera", Some(4)))
        },
    );

    assert!(fallback_called.get());
    assert!(outcome.installed.is_none());
    assert_eq!(outcome.events.len(), 2);
    assert!(matches!(
        &outcome.events[0],
        Event::ImageFailed {
            index: 11,
            tier: Tier::Thumb,
            error,
        } if error == "no embedded preview or thumbnail"
    ));
    assert!(matches!(
        &outcome.events[1],
        Event::MetadataReady { index: 11, meta }
            if meta.rating == Some(4) && meta.camera == "metadata camera"
    ));
}

#[test]
fn failed_thumbnail_reports_metadata_fallback_failure() {
    let failure = || "no embedded preview or thumbnail".to_owned();
    let outcome = complete_thumb_attempt(13, Err(failure()), || Err(failure()));

    assert!(outcome.installed.is_none());
    assert_eq!(outcome.events.len(), 2);
    assert!(matches!(
        outcome.events[0],
        Event::ImageFailed {
            index: 13,
            tier: Tier::Thumb,
            ..
        }
    ));
    assert!(matches!(
        outcome.events[1],
        Event::MetadataFailed { index: 13, .. }
    ));
}

#[test]
fn saturated_warm_self_releases_when_capacity_freed_before_park() {
    let mut persistence = PersistenceQueue::with_budget(64);
    assert_eq!(
        persistence.enqueue(persistence_request(
            (0, Tier::Browse),
            Arc::new(patterned_buf(4, 4)),
            false,
        )),
        PersistenceEnqueue::Queued
    );
    let rejected = persistence_request((1, Tier::Browse), Arc::new(patterned_buf(4, 4)), false);
    assert_eq!(
        persistence.enqueue(rejected),
        PersistenceEnqueue::Saturated
    );

    // Persistence frees pending capacity before the warm worker records
    // its deferred disposition, so the earlier completion notification
    // cannot release it.
    let active = persistence.pop().unwrap();
    let mut q = JobQueue::new();
    let id = (1, Tier::Browse);
    assert!(q.initialize_background(vec![(id, Action::WarmDevelop(Quality::Browse))]));
    let (_, _, token) = q.pop().unwrap();
    q.finish_with(
        token,
        JobCompletion::DeferBackground { required_bytes: 64 },
    );

    let available_bytes = persistence.available_pending_bytes();
    assert_eq!(available_bytes, 64);
    assert!(q.release_one_deferred(available_bytes));
    let (retried, _, retried_token) = q.pop().unwrap();
    assert_eq!(retried, id);
    q.finish(retried_token);
    let _ = persistence.finish(active.id);
}

#[test]
fn oversized_warm_buffer_is_not_deferred_forever() {
    let mut queue = PersistenceQueue::with_budget(63);
    let enqueue = queue.enqueue(persistence_request(
        (0, Tier::Browse),
        Arc::new(patterned_buf(4, 4)),
        false,
    ));
    assert_eq!(enqueue, PersistenceEnqueue::Oversized);
    assert_eq!(
        warm_job_completion(DevelopCompletion::Persistence {
            outcome: enqueue,
            retained_bytes: 64,
        }),
        JobCompletion::Complete
    );
    assert_eq!(queue.pending_len(), 0);
    assert_eq!(queue.available_pending_bytes(), queue.budget());
}

#[test]
fn cached_warm_job_does_not_touch_the_raw_file() {
    assert_eq!(
        next_warm_step(
            WarmEvent::Started {
                has_jpeg: false,
                has_disk: true,
            },
            false,
        ),
        WarmStep::ProbeDisk
    );
    assert_eq!(
        next_warm_step(WarmEvent::Probed { on_disk: true }, false),
        WarmStep::Done(JobCompletion::Complete)
    );
}

#[test]
fn active_persistence_prevents_duplicate_warm_raw_decode() {
    let mut persistence = PersistenceQueue::with_budget(1024 * 1024);
    let id = (0, Tier::Browse);
    assert_eq!(
        persistence.enqueue(persistence_request(
            id,
            Arc::new(patterned_buf(4, 4)),
            true,
        )),
        PersistenceEnqueue::Queued
    );
    let _active = persistence.pop().unwrap();

    // The active persistence request absorbs the warm completion flag in
    // place of another RAW decode.
    assert_eq!(
        next_warm_step(WarmEvent::Probed { on_disk: false }, false),
        WarmStep::MarkPending
    );
    let present = persistence.mark_warm_completion_if_present(id);
    assert_eq!(
        next_warm_step(WarmEvent::Marked { present }, false),
        WarmStep::Done(JobCompletion::Complete)
    );
    assert_eq!(
        persistence.finish(id),
        PersistenceCompletion {
            insert_ram: true,
            warm_completion: true,
        }
    );
}

#[test]
fn persistence_membership_marks_active_and_pending_warm_atomically() {
    let mut queue = PersistenceQueue::with_budget(128);
    let pixels = Arc::new(patterned_buf(4, 4));
    let active_id = (0, Tier::Browse);
    let pending_id = (1, Tier::Browse);
    assert_eq!(
        queue.enqueue(persistence_request(active_id, pixels.clone(), true)),
        PersistenceEnqueue::Queued
    );
    let _active = queue.pop().unwrap();
    assert_eq!(
        queue.enqueue(persistence_request(pending_id, pixels, true)),
        PersistenceEnqueue::Queued
    );

    assert!(queue.mark_warm_completion_if_present(active_id));
    assert!(queue.mark_warm_completion_if_present(pending_id));
    assert!(!queue.mark_warm_completion_if_present((2, Tier::Browse)));
    assert_eq!(
        queue.finish(active_id),
        PersistenceCompletion {
            insert_ram: true,
            warm_completion: true,
        }
    );
    assert_eq!(queue.pop().unwrap().id, pending_id);
    assert_eq!(
        queue.finish(pending_id),
        PersistenceCompletion {
            insert_ram: true,
            warm_completion: true,
        }
    );
}

#[test]
fn persistence_write_retry_recovers_and_permanent_failure_terminates() {
    let attempts = Cell::new(0);
    let backoffs = RefCell::new(Vec::new());
    retry_persistence_write(
        PERSIST_WRITE_ATTEMPTS,
        || {
            attempts.set(attempts.get() + 1);
            if attempts.get() < PERSIST_WRITE_ATTEMPTS {
                Err("transient".to_owned())
            } else {
                Ok(())
            }
        },
        |retry| backoffs.borrow_mut().push(retry),
    )
    .unwrap();
    assert_eq!(attempts.get(), PERSIST_WRITE_ATTEMPTS);
    assert_eq!(*backoffs.borrow(), [1, 2]);

    let attempts = Cell::new(0);
    let backoffs = RefCell::new(Vec::new());
    let error = retry_persistence_write(
        PERSIST_WRITE_ATTEMPTS,
        || {
            attempts.set(attempts.get() + 1);
            Err("permanent".to_owned())
        },
        |retry| backoffs.borrow_mut().push(retry),
    )
    .unwrap_err();
    assert_eq!(error, "permanent");
    assert_eq!(attempts.get(), PERSIST_WRITE_ATTEMPTS);
    assert_eq!(*backoffs.borrow(), [1, 2]);
}

#[test]
fn retries_are_bounded_and_back_off() {
    assert_eq!(next_retry_step(3, 0, true), RetryStep::Succeeded);
    assert_eq!(next_retry_step(3, 0, false), RetryStep::Backoff(1));
    assert_eq!(next_retry_step(3, 2, false), RetryStep::GiveUp);
    assert_eq!(next_retry_step(0, 0, false), RetryStep::GiveUp);
    let waits: Vec<_> = (1..=4).map(retry_backoff_millis).collect();
    assert_eq!(waits, [2, 4, 8, 8]);
}

#[test]
fn persistence_queue_is_bounded_nonblocking_and_coalesces_by_id() {
    let mut queue = PersistenceQueue::with_budget(64);
    let pixels = Arc::new(patterned_buf(4, 4));
    let id = (0, Tier::Browse);

    assert_eq!(
        queue.enqueue(persistence_request(id, pixels.clone(), false)),
        PersistenceEnqueue::Queued
    );
    let active = queue.pop().unwrap();
    assert_eq!(active.id, id);

    // A display request for the active warm item reuses its encoding and
    // upgrades the eventual cache action to include the RAM JPEG ring.
    assert_eq!(
        queue.enqueue(persistence_request(id, pixels.clone(), true)),
        PersistenceEnqueue::Coalesced
    );

    let pending_id = (1, Tier::Browse);
    assert_eq!(
        queue.enqueue(persistence_request(pending_id, pixels.clone(), false)),
        PersistenceEnqueue::Queued
    );
    assert_eq!(
        queue.enqueue(persistence_request(pending_id, pixels.clone(), true)),
        PersistenceEnqueue::Coalesced
    );
    assert_eq!(
        queue.enqueue(persistence_request(
            (2, Tier::Browse),
            Arc::new(patterned_buf(1, 1)),
            true,
        )),
        PersistenceEnqueue::Saturated
    );

    assert_eq!(queue.pending_len(), 1);
    assert_eq!(queue.budget() - queue.available_pending_bytes(), 64);
    assert_eq!(
        queue.finish(id),
        PersistenceCompletion {
            insert_ram: true,
            warm_completion: true,
        }
    );
    assert_eq!(queue.pop().unwrap().id, pending_id);
    assert_eq!(
        queue.finish(pending_id),
        PersistenceCompletion {
            insert_ram: true,
            warm_completion: true,
        }
    );

    queue.close();
    assert!(queue.pop().is_none());
    assert_eq!(
        queue.enqueue(persistence_request(id, pixels, true)),
        PersistenceEnqueue::Closed
    );
    assert_eq!(queue.available_pending_bytes(), 0);
}

#[test]
fn production_persistence_budget_fits_a_61mp_rgba_frame() {
    let frame_61mp_bytes = std::hint::black_box(9_504 * 6_336 * 4);
    let budget = std::hint::black_box(PERSIST_PENDING_BUDGET_BYTES);
    assert!(budget >= frame_61mp_bytes);
    assert!(budget < frame_61mp_bytes * 2);
    assert_eq!(PersistenceQueue::new().budget(), budget);
}

#[test]
fn corrupt_cached_jpeg_is_evicted_before_raw_fallback() {
    assert!(viewr_core::codec::decode_jpeg(b"not a jpeg").is_err());
    let step = |event| next_rehydrate_step(DevelopMode::Display, true, event, false);
    assert_eq!(step(RehydrateEvent::Started), RehydrateStep::ReadRam);
    assert_eq!(step(RehydrateEvent::RamCorrupt), RehydrateStep::DropRam);
    assert_eq!(step(RehydrateEvent::RamMissing), RehydrateStep::ReadDisk);
    assert_eq!(step(RehydrateEvent::DiskRead), RehydrateStep::DecodeDisk);
    assert_eq!(step(RehydrateEvent::DiskCorrupt), RehydrateStep::EvictDisk);
    assert_eq!(step(RehydrateEvent::Forgotten), RehydrateStep::Develop);
    assert_eq!(
        next_develop_step(DevelopMode::Display, DevelopEvent::Failed, false),
        DevelopStep::ReportFailure
    );
}

#[test]
fn display_development_installs_announces_and_persists() {
    let step = |event| next_develop_step(DevelopMode::Display, event, false);
    assert_eq!(step(DevelopEvent::Started), DevelopStep::Load);
    assert_eq!(step(DevelopEvent::Loaded), DevelopStep::Develop);
    assert_eq!(step(DevelopEvent::Developed), DevelopStep::Orient);
    assert_eq!(step(DevelopEvent::Oriented), DevelopStep::Install);
    assert_eq!(
        step(DevelopEvent::Installed { accepted: true }),
        DevelopStep::Publish
    );
    assert_eq!(
        step(DevelopEvent::Published { has_jpeg: false }),
        DevelopStep::Offer {
            insert_ram: true,
            warm_completion: false,
        }
    );
    assert_eq!(
        step(DevelopEvent::Published { has_jpeg: true }),
        DevelopStep::Done(DevelopCompletion::Finished)
    );
    assert_eq!(
        step(DevelopEvent::Installed { accepted: false }),
        DevelopStep::Done(DevelopCompletion::Finished)
    );
}

#[test]
fn warm_development_is_silent_and_optional_full_is_not_persisted() {
    assert_eq!(
        next_develop_step(DevelopMode::Warm, DevelopEvent::Failed, false),
        DevelopStep::SilenceFailure
    );
    assert_eq!(
        next_develop_step(DevelopMode::Warm, DevelopEvent::Oriented, false),
        DevelopStep::Offer {
            insert_ram: false,
            warm_completion: true,
        }
    );
    assert_eq!(
        next_develop_step(
            DevelopMode::Prefetch,
            DevelopEvent::Published { has_jpeg: false },
            false,
        ),
        DevelopStep::Done(DevelopCompletion::Finished)
    );
    assert_eq!(
        warm_job_completion(DevelopCompletion::Cancelled),
        JobCompletion::RetryBackground
    );
    assert_eq!(
        next_warm_step(
            WarmEvent::Started {
                has_jpeg: true,
                has_disk: true,
            },
            true,
        ),
        WarmStep::Done(JobCompletion::RetryBackground)
    );
}

#[test]
fn cancelled_development_stops_between_stages() {
    for event in [
        DevelopEvent::Started,
        DevelopEvent::Loaded,
        DevelopEvent::Developed,
        DevelopEvent::Oriented,
        DevelopEvent::FailureHandled,
    ] {
        assert_eq!(
            next_develop_step(DevelopMode::Display, event, true),
            DevelopStep::Done(DevelopCompletion::Cancelled)
        );
    }
    assert_eq!(
        next_develop_step(DevelopMode::Display, DevelopEvent::Failed, true),
        DevelopStep::SilenceFailure
    );
    assert!(metadata_event(1, Ok(file_meta("x", None)), true).is_none());
    assert!(matches!(
        metadata_event(1, Err("bad".to_owned()), false),
        Some(Event::MetadataFailed { index: 1, error }) if error == "bad"
    ));
}

#[test]
fn optional_full_without_pixels_is_suppressed() {
    assert_eq!(
        prefetch_completion(false, false),
        JobCompletion::SuppressSpeculative
    );
    assert_eq!(prefetch_completion(true, false), JobCompletion::Complete);
    assert_eq!(prefetch_completion(false, true), JobCompletion::Complete);
}

#[test]
fn disk_bytes_enter_ram_only_for_display() {
    let installed = RehydrateEvent::DiskInstalled { accepted: true };
    assert_eq!(
        next_rehydrate_step(DevelopMode::Display, true, installed, false),
        RehydrateStep::KeepEncoded
    );
    assert_eq!(
        next_rehydrate_step(DevelopMode::Prefetch, true, installed, false),
        RehydrateStep::Done
    );
    assert_eq!(
        next_rehydrate_step(DevelopMode::Display, false, RehydrateEvent::RamMissing, false),
        RehydrateStep::Develop
    );
}

#[test]
fn encoded_bytes_serve_ram_where_display_asked() {
    let completion = PersistenceCompletion {
        insert_ram: true,
        warm_completion: true,
    };
    let follow_up = persistence_follow_up(true, completion);
    assert!(follow_up.insert_jpeg && follow_up.blames_warming);
    assert!(!persistence_follow_up(false, completion).insert_jpeg);
}

#[test]
fn busy_enqueue_fallback_preserves_pixels_without_future_completion() {
    let queue = Mutex::new(PersistenceQueue::with_budget(64));
    let request = persistence_request((0, Tier::Browse), Arc::new(patterned_buf(4, 4)), false);

    let guard = queue.lock().unwrap();
    assert!(queue.try_lock().is_err());
    drop(guard);

    // Nothing was active or pending to produce a later capacity wakeup. The
    // retained request can still take the short lock once and enqueue without
    // another RAW develop.
    let mut queue = queue.lock().unwrap();
    assert_eq!(queue.enqueue(request), PersistenceEnqueue::Queued);
    let accepted = queue.pop().unwrap();
    assert_eq!(accepted.id, (0, Tier::Browse));
    assert_eq!(
        queue.finish(accepted.id),
        PersistenceCompletion {
            insert_ram: false,
            warm_completion: true,
        }
    );
}
