//! The decisions of a worker between the stages of a job.
//!
//! Decoding, development, caches and files are the caller's. After each stage
//! the caller reports what happened, together with the current state of its
//! cancellation flag, and is told the next step.

use vstd::prelude::*;

use crate::jobs::ids::JobId;
use crate::jobs::persistence::{PersistenceCompletion, PersistenceEnqueue};
use crate::jobs::queue::{Action, JobCompletion, Quality};
use crate::meta::FileMeta;
use crate::types::{PixelBuf, Tier};

verus! {

/// Result notification published by workers.
///
/// Pixel payloads are installed in the RAM cache before their ready event is
/// sent, keeping messages small. Events do not lease cache entries: a later
/// worker can evict an unpinned payload before the receiver handles the
/// message, so the receiver must tolerate a cache miss and replan.
#[derive(Debug)]
pub enum Event {
    /// Container metadata became available without decoding a thumbnail.
    MetadataReady {
        /// Index in the immutable folder entry list.
        index: usize,
        /// Extracted container metadata.
        meta: Box<FileMeta>,
    },
    /// A viewport-demanded thumbnail was produced and its metadata is ready.
    ThumbReady {
        /// Index in the immutable folder entry list.
        index: usize,
        /// Metadata extracted during the thumbnail pass.
        meta: Box<FileMeta>,
    },
    /// A developed or rehydrated image was installed in the RAM cache.
    ImageReady {
        /// Index in the immutable folder entry list.
        index: usize,
        /// Resident render tier.
        tier: Tier,
    },
    /// An image decode, development, or rehydration attempt failed.
    ImageFailed {
        /// Index in the immutable folder entry list.
        index: usize,
        /// Tier whose production failed.
        tier: Tier,
        /// Human-readable underlying error.
        error: String,
    },
    /// Metadata extraction failed.
    MetadataFailed {
        /// Index in the immutable folder entry list.
        index: usize,
        /// Human-readable underlying error.
        error: String,
    },
}

// ---------------------------------------------------------------------------
// Starting and ending a job
// ---------------------------------------------------------------------------

/// What developed pixels are for.
#[derive(Debug, Clone, Copy, PartialEq, Eq, Structural)]
pub enum DevelopMode {
    /// Install decoded pixels, publish readiness, and persist a cache miss.
    Display,
    /// Install only into the adaptive Full RGBA ring.
    Prefetch,
    /// Populate encoded RAM/disk cache without installing decoded pixels.
    Warm,
}

/// The work that a claimed job starts with.
#[derive(Debug, Clone, Copy, PartialEq, Eq, Structural)]
pub enum JobStart {
    /// Publish the resident pixels again, and persist them where asked.
    ReuseResident {
        /// Whether the pixels become required display work.
        persist: bool,
    },
    /// Scan container metadata.
    Metadata,
    /// Decode the thumbnail.
    Thumb,
    /// Decode an encoded cache object, developing on a miss.
    Rehydrate(DevelopMode),
    /// Persist resident pixels.
    PersistResident,
    /// Develop for display.
    Develop(Quality),
    /// Develop for the encoded cache.
    Warm(Quality),
}

/// The start of a claimed job. Pixels that became resident since it was planned
/// are reused rather than decoded again.
pub open spec fn job_start(action: Action, tier: Tier, has_rgba: bool) -> JobStart {
    let renders = action is Develop || action == Action::PrefetchFull || action
        == Action::Rehydrate;
    if renders && has_rgba {
        JobStart::ReuseResident { persist: tier == Tier::Full && action != Action::PrefetchFull }
    } else {
        match action {
            Action::Metadata => JobStart::Metadata,
            Action::Thumb => JobStart::Thumb,
            Action::Rehydrate => JobStart::Rehydrate(DevelopMode::Display),
            Action::PrefetchFull => JobStart::Rehydrate(DevelopMode::Prefetch),
            Action::PersistResident => JobStart::PersistResident,
            Action::Develop(quality) => JobStart::Develop(quality),
            Action::WarmDevelop(quality) => JobStart::Warm(quality),
        }
    }
}

/// Decides how a claimed job starts.
pub fn start_job(action: Action, tier: Tier, has_rgba: bool) -> (start: JobStart)
    ensures
        start == job_start(action, tier, has_rgba),
{
    match action {
        Action::Metadata => JobStart::Metadata,
        Action::Thumb => JobStart::Thumb,
        Action::PersistResident => JobStart::PersistResident,
        Action::WarmDevelop(quality) => JobStart::Warm(quality),
        Action::Develop(quality) => if has_rgba {
            JobStart::ReuseResident { persist: tier == Tier::Full }
        } else {
            JobStart::Develop(quality)
        },
        Action::Rehydrate => if has_rgba {
            JobStart::ReuseResident { persist: tier == Tier::Full }
        } else {
            JobStart::Rehydrate(DevelopMode::Display)
        },
        Action::PrefetchFull => if has_rgba {
            JobStart::ReuseResident { persist: false }
        } else {
            JobStart::Rehydrate(DevelopMode::Prefetch)
        },
    }
}

/// How an optional Full attempt ends: one that left no pixels behind, without
/// being cancelled, is suppressed for the rest of the navigation.
pub fn prefetch_completion(cancelled: bool, has_rgba: bool) -> (completion: JobCompletion)
    ensures
        completion == if !cancelled && !has_rgba {
            JobCompletion::SuppressSpeculative
        } else {
            JobCompletion::Complete
        },
{
    if !cancelled && !has_rgba {
        JobCompletion::SuppressSpeculative
    } else {
        JobCompletion::Complete
    }
}

/// How a job ends whose worker panicked. It is completed rather than retried:
/// repeating an identical panic would otherwise create an unbounded retry loop.
pub fn panic_completion(action: Action) -> (completion: JobCompletion)
    ensures
        completion == if action == Action::PrefetchFull {
            JobCompletion::SuppressSpeculative
        } else {
            JobCompletion::Complete
        },
{
    if action.is_speculative_full() {
        JobCompletion::SuppressSpeculative
    } else {
        JobCompletion::Complete
    }
}

/// The bytes that a deferred job waits for.
pub fn deferred_bytes(completion: JobCompletion) -> (bytes: Option<usize>)
    ensures
        bytes == match completion {
            JobCompletion::DeferBackground { required_bytes } => Some(required_bytes),
            _ => None,
        },
{
    match completion {
        JobCompletion::DeferBackground { required_bytes } => Some(required_bytes),
        _ => None,
    }
}

/// The characters of the error that a panicked worker reports.
pub open spec fn panic_chars(detail: Option<&str>) -> Seq<char> {
    "worker panicked: "@ + match detail {
        Some(message) => message@,
        None => "non-string panic payload"@,
    }
}

/// Whether a panic of an action is reported as a failed image.
pub open spec fn fails_image(action: Action) -> bool {
    action == Action::Thumb || action is Develop || action == Action::PrefetchFull || action
        == Action::Rehydrate
}

/// The event that reports a panicked worker. Folder-wide warming and resident
/// persistence stay invisible to the event channel.
pub fn worker_panic_event(id: JobId, action: Action, detail: Option<&str>) -> (event: Option<
    Event,
>)
    ensures
        match event {
            Some(Event::MetadataFailed { index, error }) => action == Action::Metadata && index
                == id.0 && error@ == panic_chars(detail),
            Some(Event::ImageFailed { index, tier, error }) => fails_image(action) && index == id.0
                && tier == id.1 && error@ == panic_chars(detail),
            Some(_) => false,
            None => action == Action::PersistResident || action is WarmDevelop,
        },
{
    let mut error = String::from_str("worker panicked: ");
    match detail {
        Some(message) => error.append(message),
        None => error.append("non-string panic payload"),
    }
    match action {
        Action::Metadata => Some(Event::MetadataFailed { index: id.0, error }),
        Action::Thumb | Action::Develop(_) | Action::PrefetchFull | Action::Rehydrate => Some(
            Event::ImageFailed { index: id.0, tier: id.1, error },
        ),
        Action::PersistResident => None,
        Action::WarmDevelop(_) => None,
    }
}

/// The event of a metadata scan, which a cancelled job does not send.
pub fn metadata_event(index: usize, scanned: Result<FileMeta, String>, cancelled: bool) -> (event:
    Option<Event>)
    ensures
        match event {
            Some(Event::MetadataReady { index: i, meta }) => !cancelled && i == index && scanned
                == Ok::<FileMeta, String>(*meta),
            Some(Event::MetadataFailed { index: i, error }) => !cancelled && i == index && scanned
                == Err::<FileMeta, String>(error),
            Some(_) => false,
            None => cancelled,
        },
{
    if cancelled {
        return None;
    }
    match scanned {
        Ok(meta) => Some(Event::MetadataReady { index, meta: Box::new(meta) }),
        Err(error) => Some(Event::MetadataFailed { index, error }),
    }
}

/// A decoded thumbnail with the metadata of its container.
pub struct ThumbResult {
    pub thumb: PixelBuf,
    pub meta: FileMeta,
}

/// What a thumbnail attempt leads to: pixels to install, then events to send in
/// order.
pub struct ThumbOutcome {
    pub installed: Option<PixelBuf>,
    pub events: Vec<Event>,
}

/// Completes a thumbnail attempt while preserving metadata coverage when a RAW
/// container has readable metadata but no usable embedded preview. The
/// fallback is lazy so a successful thumbnail never parses metadata twice.
pub fn complete_thumb_attempt<F: FnOnce() -> Result<FileMeta, String>>(
    index: usize,
    attempt: Result<ThumbResult, String>,
    fallback_metadata: F,
) -> (outcome: ThumbOutcome)
    requires
        fallback_metadata.requires(()),
    ensures
        match attempt {
            Ok(result) => {
                &&& outcome.installed == Some(result.thumb)
                &&& outcome.events@.len() == 1
                &&& outcome.events@[0] == (Event::ThumbReady {
                    index,
                    meta: Box::new(result.meta),
                })
            },
            Err(error) => {
                &&& outcome.installed is None
                &&& outcome.events@.len() == 2
                &&& outcome.events@[0] == (Event::ImageFailed { index, tier: Tier::Thumb, error })
                &&& match outcome.events@[1] {
                    Event::MetadataReady { index: i, meta } => i == index
                        && fallback_metadata.ensures((), Ok(*meta)),
                    Event::MetadataFailed { index: i, error: reason } => i == index
                        && fallback_metadata.ensures((), Err(reason)),
                    _ => false,
                }
            },
        },
{
    let mut events: Vec<Event> = Vec::new();
    match attempt {
        Ok(result) => {
            events.push(Event::ThumbReady { index, meta: Box::new(result.meta) });
            ThumbOutcome { installed: Some(result.thumb), events }
        },
        Err(error) => {
            events.push(Event::ImageFailed { index, tier: Tier::Thumb, error });
            match fallback_metadata() {
                Ok(meta) => events.push(Event::MetadataReady { index, meta: Box::new(meta) }),
                Err(reason) => events.push(Event::MetadataFailed { index, error: reason }),
            }
            ThumbOutcome { installed: None, events }
        },
    }
}

// ---------------------------------------------------------------------------
// Developing
// ---------------------------------------------------------------------------

/// How a development ended.
#[derive(Debug, Clone, Copy, PartialEq, Eq, Structural)]
pub enum DevelopCompletion {
    /// Nothing is left to do.
    Finished,
    /// Cancellation stopped it before it produced or handed off pixels.
    Cancelled,
    /// The pixels were offered to the persistence lane.
    Persistence {
        /// What became of the offer.
        outcome: PersistenceEnqueue,
        /// Bytes that the pixels retain.
        retained_bytes: usize,
    },
}

/// What just happened in a development.
#[derive(Debug, Clone, Copy, PartialEq, Eq, Structural)]
pub enum DevelopEvent {
    /// The job began.
    Started,
    /// The RAW file could not be decoded or developed.
    Failed,
    /// The failure was reported, or silenced.
    FailureHandled,
    /// The RAW file was decoded.
    Loaded,
    /// The image was developed.
    Developed,
    /// The image was rotated for display.
    Oriented,
    /// The cache answered whether it wants the pixels.
    Installed {
        /// Whether it took them.
        accepted: bool,
    },
    /// Readiness was published.
    Published {
        /// Whether encoded bytes are already resident.
        has_jpeg: bool,
    },
    /// The persistence lane answered.
    Offered {
        /// What became of the offer.
        outcome: PersistenceEnqueue,
        /// Bytes that the pixels retain.
        retained_bytes: usize,
    },
}

/// What to do next in a development.
#[derive(Debug, Clone, Copy, PartialEq, Eq, Structural)]
pub enum DevelopStep {
    /// Decode the RAW file.
    Load,
    /// Publish the failure.
    ReportFailure,
    /// Say nothing of the failure.
    SilenceFailure,
    /// Develop the image.
    Develop,
    /// Rotate the image for display.
    Orient,
    /// Offer the pixels to the decoded cache.
    Install,
    /// Publish readiness.
    Publish,
    /// Offer the pixels to the persistence lane.
    Offer {
        /// Whether the encoded bytes enter RAM as well.
        insert_ram: bool,
        /// Whether this is a folder-warm obligation.
        warm_completion: bool,
    },
    /// The development ended.
    Done(DevelopCompletion),
}

/// The next step of a development. Cancellation is looked at after every stage
/// that cannot be interrupted.
pub open spec fn develop_step(mode: DevelopMode, event: DevelopEvent, cancelled: bool)
    -> DevelopStep {
    let stop = DevelopStep::Done(DevelopCompletion::Cancelled);
    match event {
        DevelopEvent::Started => if cancelled {
            stop
        } else {
            DevelopStep::Load
        },
        DevelopEvent::Failed => if mode != DevelopMode::Warm && !cancelled {
            DevelopStep::ReportFailure
        } else {
            DevelopStep::SilenceFailure
        },
        DevelopEvent::FailureHandled => if cancelled {
            stop
        } else {
            DevelopStep::Done(DevelopCompletion::Finished)
        },
        DevelopEvent::Loaded => if cancelled {
            stop
        } else {
            DevelopStep::Develop
        },
        DevelopEvent::Developed => if cancelled {
            stop
        } else {
            DevelopStep::Orient
        },
        DevelopEvent::Oriented => if cancelled {
            stop
        } else if mode == DevelopMode::Warm {
            DevelopStep::Offer { insert_ram: false, warm_completion: true }
        } else {
            DevelopStep::Install
        },
        DevelopEvent::Installed { accepted } => if accepted {
            DevelopStep::Publish
        } else {
            DevelopStep::Done(DevelopCompletion::Finished)
        },
        DevelopEvent::Published { has_jpeg } => if mode == DevelopMode::Display && !has_jpeg {
            DevelopStep::Offer { insert_ram: true, warm_completion: false }
        } else {
            DevelopStep::Done(DevelopCompletion::Finished)
        },
        DevelopEvent::Offered { outcome, retained_bytes } => DevelopStep::Done(
            DevelopCompletion::Persistence { outcome, retained_bytes },
        ),
    }
}

/// Decides the next step of a development.
pub fn next_develop_step(mode: DevelopMode, event: DevelopEvent, cancelled: bool) -> (step:
    DevelopStep)
    requires
        mode == DevelopMode::Warm ==> !(event is Installed) && !(event is Published),
    ensures
        step == develop_step(mode, event, cancelled),
{
    match event {
        DevelopEvent::Started => {
            if cancelled {
                return DevelopStep::Done(DevelopCompletion::Cancelled);
            }
            DevelopStep::Load
        },
        DevelopEvent::Failed => {
            if mode != DevelopMode::Warm && !cancelled {
                DevelopStep::ReportFailure
            } else {
                DevelopStep::SilenceFailure
            }
        },
        DevelopEvent::FailureHandled => {
            if cancelled {
                DevelopStep::Done(DevelopCompletion::Cancelled)
            } else {
                DevelopStep::Done(DevelopCompletion::Finished)
            }
        },
        DevelopEvent::Loaded => {
            if cancelled {
                return DevelopStep::Done(DevelopCompletion::Cancelled);
            }
            DevelopStep::Develop
        },
        DevelopEvent::Developed => {
            if cancelled {
                return DevelopStep::Done(DevelopCompletion::Cancelled);
            }
            DevelopStep::Orient
        },
        DevelopEvent::Oriented => {
            if cancelled {
                return DevelopStep::Done(DevelopCompletion::Cancelled);
            }
            if mode == DevelopMode::Warm {
                DevelopStep::Offer { insert_ram: false, warm_completion: true }
            } else {
                DevelopStep::Install
            }
        },
        DevelopEvent::Installed { accepted } => {
            if accepted {
                DevelopStep::Publish
            } else {
                DevelopStep::Done(DevelopCompletion::Finished)
            }
        },
        DevelopEvent::Published { has_jpeg } => {
            if mode == DevelopMode::Prefetch || has_jpeg {
                DevelopStep::Done(DevelopCompletion::Finished)
            } else {
                DevelopStep::Offer { insert_ram: true, warm_completion: false }
            }
        },
        DevelopEvent::Offered { outcome, retained_bytes } => DevelopStep::Done(
            DevelopCompletion::Persistence { outcome, retained_bytes },
        ),
    }
}

/// How a warm development ends the background job: cancelled work is retried,
/// pixels that the persistence lane could not take now wait for capacity, and
/// everything else is done.
pub open spec fn warm_outcome(completion: DevelopCompletion) -> JobCompletion {
    match completion {
        DevelopCompletion::Cancelled => JobCompletion::RetryBackground,
        DevelopCompletion::Finished => JobCompletion::Complete,
        DevelopCompletion::Persistence { outcome, retained_bytes } => if outcome
            == PersistenceEnqueue::Busy || outcome == PersistenceEnqueue::Saturated {
            JobCompletion::DeferBackground { required_bytes: retained_bytes }
        } else {
            JobCompletion::Complete
        },
    }
}

/// Decides how a warm development ends the background job.
pub fn warm_job_completion(completion: DevelopCompletion) -> (outcome: JobCompletion)
    ensures
        outcome == warm_outcome(completion),
{
    match completion {
        DevelopCompletion::Cancelled => JobCompletion::RetryBackground,
        DevelopCompletion::Persistence { outcome, retained_bytes } => match outcome {
            PersistenceEnqueue::Busy | PersistenceEnqueue::Saturated => {
                JobCompletion::DeferBackground { required_bytes: retained_bytes }
            },
            _ => JobCompletion::Complete,
        },
        DevelopCompletion::Finished => JobCompletion::Complete,
    }
}

/// What is known before a warm development starts.
#[derive(Debug, Clone, Copy, PartialEq, Eq, Structural)]
pub enum WarmEvent {
    /// The job began; tells whether encoded bytes are resident.
    Started {
        /// Whether encoded bytes are resident.
        has_jpeg: bool,
        /// Whether a disk cache is configured.
        has_disk: bool,
    },
    /// The disk cache was probed.
    Probed {
        /// Whether it holds the object.
        on_disk: bool,
    },
    /// The persistence lane was asked to count a waiting request as warm.
    Marked {
        /// Whether there is one.
        present: bool,
    },
}

/// What to do next before a warm development.
#[derive(Debug, Clone, Copy, PartialEq, Eq, Structural)]
pub enum WarmStep {
    /// Probe the disk cache.
    ProbeDisk,
    /// Ask the persistence lane to count a waiting request as warm.
    MarkPending,
    /// Develop the image.
    Develop,
    /// The job ended.
    Done(JobCompletion),
}

/// The next step of a warm job. Anything that already satisfies the obligation
/// ends it without another RAW decode.
pub fn next_warm_step(event: WarmEvent, cancelled: bool) -> (step: WarmStep)
    ensures
        step == match event {
            WarmEvent::Started { has_jpeg, has_disk } => if cancelled {
                WarmStep::Done(JobCompletion::RetryBackground)
            } else if has_jpeg || !has_disk {
                WarmStep::Done(JobCompletion::Complete)
            } else {
                WarmStep::ProbeDisk
            },
            WarmEvent::Probed { on_disk } => if on_disk {
                WarmStep::Done(JobCompletion::Complete)
            } else {
                WarmStep::MarkPending
            },
            WarmEvent::Marked { present } => if present {
                WarmStep::Done(JobCompletion::Complete)
            } else {
                WarmStep::Develop
            },
        },
{
    match event {
        WarmEvent::Started { has_jpeg, has_disk } => {
            if cancelled {
                return WarmStep::Done(JobCompletion::RetryBackground);
            }
            if has_jpeg || !has_disk {
                return WarmStep::Done(JobCompletion::Complete);
            }
            WarmStep::ProbeDisk
        },
        WarmEvent::Probed { on_disk } => {
            if on_disk {
                WarmStep::Done(JobCompletion::Complete)
            } else {
                WarmStep::MarkPending
            }
        },
        WarmEvent::Marked { present } => {
            if present {
                WarmStep::Done(JobCompletion::Complete)
            } else {
                WarmStep::Develop
            }
        },
    }
}

// ---------------------------------------------------------------------------
// Rehydrating
// ---------------------------------------------------------------------------

/// What just happened in a rehydration.
#[derive(Debug, Clone, Copy, PartialEq, Eq, Structural)]
pub enum RehydrateEvent {
    /// The job began.
    Started,
    /// RAM holds no encoded bytes, or no longer.
    RamMissing,
    /// The encoded bytes in RAM were decoded.
    RamDecoded,
    /// The encoded bytes in RAM could not be decoded.
    RamCorrupt,
    /// The disk cache holds no object.
    DiskMissing,
    /// The disk object was read.
    DiskRead,
    /// The disk object was decoded.
    DiskDecoded,
    /// The disk object could not be decoded.
    DiskCorrupt,
    /// The decoded pixels of a disk object were offered to the cache.
    DiskInstalled {
        /// Whether it took them.
        accepted: bool,
    },
    /// The decoded pixels of RAM bytes were offered to the cache.
    RamInstalled,
    /// The disk object is no longer counted as present.
    Forgotten,
    /// The encoded bytes of a disk object entered RAM.
    Kept,
}

/// What to do next in a rehydration.
#[derive(Debug, Clone, Copy, PartialEq, Eq, Structural)]
pub enum RehydrateStep {
    /// Look up the encoded bytes in RAM and decode them.
    ReadRam,
    /// Drop the encoded bytes in RAM.
    DropRam,
    /// Offer the pixels decoded from RAM bytes to the cache.
    InstallFromRam,
    /// Read the disk object.
    ReadDisk,
    /// Decode the disk object.
    DecodeDisk,
    /// Offer the pixels decoded from the disk object to the cache.
    InstallFromDisk,
    /// Keep the encoded bytes of the disk object in RAM.
    KeepEncoded,
    /// Remove the corrupt disk object and no longer count it as present.
    EvictDisk,
    /// No longer count the disk object as present.
    Forget,
    /// Develop the RAW file.
    Develop,
    /// The rehydration ended.
    Done,
}

/// The next step of a rehydration: the encoded ring first, then the disk, then
/// the RAW file. Disk bytes enter RAM only after they decoded and only for
/// display.
pub open spec fn rehydrate_step(
    mode: DevelopMode,
    has_disk: bool,
    event: RehydrateEvent,
    cancelled: bool,
) -> RehydrateStep {
    match event {
        RehydrateEvent::Started => if cancelled {
            RehydrateStep::Done
        } else {
            RehydrateStep::ReadRam
        },
        RehydrateEvent::RamDecoded => if cancelled {
            RehydrateStep::Done
        } else {
            RehydrateStep::InstallFromRam
        },
        RehydrateEvent::RamInstalled => RehydrateStep::Done,
        RehydrateEvent::RamCorrupt => RehydrateStep::DropRam,
        RehydrateEvent::RamMissing => if cancelled {
            RehydrateStep::Done
        } else if has_disk {
            RehydrateStep::ReadDisk
        } else {
            RehydrateStep::Develop
        },
        RehydrateEvent::DiskRead => if cancelled {
            RehydrateStep::Done
        } else {
            RehydrateStep::DecodeDisk
        },
        RehydrateEvent::DiskDecoded => if cancelled {
            RehydrateStep::Done
        } else {
            RehydrateStep::InstallFromDisk
        },
        RehydrateEvent::DiskInstalled { accepted } => if accepted && mode == DevelopMode::Display {
            RehydrateStep::KeepEncoded
        } else {
            RehydrateStep::Done
        },
        RehydrateEvent::Kept => RehydrateStep::Done,
        RehydrateEvent::DiskCorrupt => RehydrateStep::EvictDisk,
        RehydrateEvent::DiskMissing => RehydrateStep::Forget,
        RehydrateEvent::Forgotten => RehydrateStep::Develop,
    }
}

/// Decides the next step of a rehydration.
pub fn next_rehydrate_step(
    mode: DevelopMode,
    has_disk: bool,
    event: RehydrateEvent,
    cancelled: bool,
) -> (step: RehydrateStep)
    ensures
        step == rehydrate_step(mode, has_disk, event, cancelled),
{
    match event {
        RehydrateEvent::Started => {
            if cancelled {
                return RehydrateStep::Done;
            }
            RehydrateStep::ReadRam
        },
        RehydrateEvent::RamDecoded => {
            if cancelled {
                return RehydrateStep::Done;
            }
            RehydrateStep::InstallFromRam
        },
        RehydrateEvent::RamInstalled => RehydrateStep::Done,
        RehydrateEvent::RamCorrupt => RehydrateStep::DropRam,
        RehydrateEvent::RamMissing => {
            if cancelled {
                return RehydrateStep::Done;
            }
            if has_disk {
                RehydrateStep::ReadDisk
            } else {
                RehydrateStep::Develop
            }
        },
        RehydrateEvent::DiskRead => {
            if cancelled {
                return RehydrateStep::Done;
            }
            RehydrateStep::DecodeDisk
        },
        RehydrateEvent::DiskDecoded => {
            if cancelled {
                return RehydrateStep::Done;
            }
            RehydrateStep::InstallFromDisk
        },
        RehydrateEvent::DiskInstalled { accepted } => {
            if accepted && mode == DevelopMode::Display {
                RehydrateStep::KeepEncoded
            } else {
                RehydrateStep::Done
            }
        },
        RehydrateEvent::Kept => RehydrateStep::Done,
        RehydrateEvent::DiskCorrupt => RehydrateStep::EvictDisk,
        RehydrateEvent::DiskMissing => RehydrateStep::Forget,
        RehydrateEvent::Forgotten => RehydrateStep::Develop,
    }
}

/// The event that announces rehydrated pixels, which come after the cache took
/// them only.
pub fn rehydrated_event(index: usize, tier: Tier, accepted: bool) -> (event: Option<Event>)
    ensures
        event == if accepted {
            Some(Event::ImageReady { index, tier })
        } else {
            None
        },
{
    if accepted {
        Some(Event::ImageReady { index, tier })
    } else {
        None
    }
}

// ---------------------------------------------------------------------------
// Persisting
// ---------------------------------------------------------------------------

/// What is known while resident pixels are being promoted to disk.
#[derive(Debug, Clone, Copy, PartialEq, Eq, Structural)]
pub enum ResidentEvent {
    /// The job began.
    Started {
        /// Whether encoded bytes are resident.
        has_jpeg: bool,
        /// Whether the disk object was observed before.
        known_present: bool,
        /// Whether a disk cache is configured.
        has_disk: bool,
    },
    /// The disk cache was probed.
    Probed {
        /// Whether it holds the object.
        on_disk: bool,
    },
    /// The decoded cache was asked for the pixels.
    Fetched {
        /// Whether it still holds them.
        resident: bool,
    },
}

/// What to do next while resident pixels are being promoted to disk.
#[derive(Debug, Clone, Copy, PartialEq, Eq, Structural)]
pub enum ResidentStep {
    /// Probe the disk cache.
    ProbeDisk,
    /// Count the disk object as present, and stop.
    RememberPresent,
    /// Fetch the pixels from the decoded cache.
    Fetch,
    /// Offer the pixels to the persistence lane.
    Offer,
    /// Nothing is left to do.
    Done,
}

/// Decides the next step of promoting resident pixels. Nothing is encoded that
/// is already encoded in RAM or known to be on disk.
pub fn next_resident_step(event: ResidentEvent, cancelled: bool) -> (step: ResidentStep)
    ensures
        step == match event {
            ResidentEvent::Started { has_jpeg, known_present, has_disk } => if cancelled || has_jpeg
                || known_present {
                ResidentStep::Done
            } else if has_disk {
                ResidentStep::ProbeDisk
            } else {
                ResidentStep::Fetch
            },
            ResidentEvent::Probed { on_disk } => if on_disk {
                ResidentStep::RememberPresent
            } else {
                ResidentStep::Fetch
            },
            ResidentEvent::Fetched { resident } => if resident && !cancelled {
                ResidentStep::Offer
            } else {
                ResidentStep::Done
            },
        },
{
    match event {
        ResidentEvent::Started { has_jpeg, known_present, has_disk } => {
            if cancelled || has_jpeg || known_present {
                return ResidentStep::Done;
            }
            if has_disk {
                ResidentStep::ProbeDisk
            } else {
                ResidentStep::Fetch
            }
        },
        ResidentEvent::Probed { on_disk } => {
            if on_disk {
                ResidentStep::RememberPresent
            } else {
                ResidentStep::Fetch
            }
        },
        ResidentEvent::Fetched { resident } => {
            if resident && !cancelled {
                ResidentStep::Offer
            } else {
                ResidentStep::Done
            }
        },
    }
}

/// What to do after an attempt at writing.
#[derive(Debug, Clone, Copy, PartialEq, Eq, Structural)]
pub enum RetryStep {
    /// The write succeeded.
    Succeeded,
    /// Wait, then try again; carries the number of the coming retry.
    Backoff(usize),
    /// Give up with the last error.
    GiveUp,
}

/// Decides what follows attempt number `attempt`, counted from zero, out of
/// `attempts`. At least one attempt is always allowed.
pub fn next_retry_step(attempts: usize, attempt: usize, succeeded: bool) -> (step: RetryStep)
    requires
        attempt < if attempts < 1 {
            1
        } else {
            attempts
        },
    ensures
        step == if succeeded {
            RetryStep::Succeeded
        } else if attempt + 1 >= attempts {
            RetryStep::GiveUp
        } else {
            RetryStep::Backoff((attempt + 1) as usize)
        },
{
    if succeeded {
        RetryStep::Succeeded
    } else if attempts <= 1 || attempt == attempts - 1 {
        RetryStep::GiveUp
    } else {
        RetryStep::Backoff(attempt + 1)
    }
}

/// Milliseconds to wait before retry number `retry`, counted from one: two,
/// four, then always eight.
pub fn retry_backoff_millis(retry: usize) -> (millis: u64)
    ensures
        millis == if retry <= 1 {
            2int
        } else if retry == 2 {
            4int
        } else {
            8int
        },
{
    if retry <= 1 {
        2
    } else if retry == 2 {
        4
    } else {
        8
    }
}

/// Whether attempts at writing can have had some results: all but the last one are
/// errors, each followed by a wait that is told the number of the coming retry,
/// and an error is the last one only where the attempts ran out.
pub open spec fn may_write<E, W: Fn() -> Result<(), E>, B: Fn(usize)>(
    attempts: usize,
    write: W,
    backoff: B,
    results: Seq<Result<(), E>>,
) -> bool {
    let limit = if attempts < 1 {
        1
    } else {
        attempts as int
    };
    &&& 1 <= results.len() <= limit
    &&& forall|i: int| 0 <= i < results.len() ==> write.ensures((), #[trigger] results[i])
    &&& forall|i: int| 0 <= i < results.len() - 1 ==> (#[trigger] results[i]) is Err
    &&& forall|retry: usize|
        1 <= retry < results.len() ==> #[trigger] backoff.ensures((retry,), ())
    &&& results.last() is Err ==> results.len() == limit
}

/// Writes an object with bounded retries. Between two attempts `backoff` is
/// told the number of the coming retry. What follows each attempt is decided by
/// [`next_retry_step`].
pub fn retry_persistence_write<E, W: Fn() -> Result<(), E>, B: Fn(usize)>(
    attempts: usize,
    write: W,
    backoff: B,
) -> (written: Result<(), E>)
    requires
        write.requires(()),
        forall|retry: usize| 1 <= retry < attempts ==> backoff.requires((retry,)),
    ensures
        exists|results: Seq<Result<(), E>>| #[trigger]
            may_write(attempts, write, backoff, results) && results.last() == written,
{
    let mut attempt: usize = 0;
    let ghost mut results: Seq<Result<(), E>> = seq![];
    loop
        invariant
            attempt < if attempts < 1 {
                1
            } else {
                attempts
            },
            write.requires(()),
            forall|retry: usize| 1 <= retry < attempts ==> backoff.requires((retry,)),
            results.len() == attempt,
            forall|i: int|
                0 <= i < results.len() ==> write.ensures((), #[trigger] results[i])
                    && results[i] is Err,
            forall|retry: usize| 1 <= retry <= attempt ==> #[trigger] backoff.ensures((retry,), ()),
        decreases attempts - attempt,
    {
        let result = write();
        proof {
            results = results.push(result);
        }
        let succeeded: bool = result.is_ok();
        match next_retry_step(attempts, attempt, succeeded) {
            RetryStep::Backoff(retry) => {
                backoff(retry);
                attempt = retry;
            },
            _ => {
                assert(may_write(attempts, write, backoff, results));
                return result;
            },
        }
    }
}

/// What follows a finished persistence attempt.
#[derive(Debug, Clone, Copy, PartialEq, Eq, Structural)]
pub struct PersistenceFollowUp {
    /// Whether the encoded bytes enter RAM.
    pub insert_jpeg: bool,
    /// Whether a failure belongs to folder warming.
    pub blames_warming: bool,
}

/// Decides what follows a finished persistence attempt, whatever the disk
/// said: encoded bytes still serve RAM where display asked for them.
pub fn persistence_follow_up(encoded: bool, completion: PersistenceCompletion) -> (follow_up:
    PersistenceFollowUp)
    ensures
        follow_up.insert_jpeg == (encoded && completion.insert_ram),
        follow_up.blames_warming == completion.warm_completion,
{
    PersistenceFollowUp {
        insert_jpeg: encoded && completion.insert_ram,
        blames_warming: completion.warm_completion,
    }
}

// ---------------------------------------------------------------------------
// Laws
// ---------------------------------------------------------------------------

/// Once cancellation is seen before pixels were handed over, a development
/// installs nothing, publishes nothing and persists nothing.
pub proof fn law_cancelled_development_has_no_effect(mode: DevelopMode, event: DevelopEvent)
    requires
        !(event is Installed),
        !(event is Published),
        !(event is Offered),
    ensures
        ({
            let step = develop_step(mode, event, true);
            step == DevelopStep::Done(DevelopCompletion::Cancelled) || step
                == DevelopStep::SilenceFailure
        }),
{
}

/// Warm work never installs or announces pixels, and optional Full work is
/// never persisted.
pub proof fn law_modes_keep_to_their_caches(event: DevelopEvent, cancelled: bool)
    ensures
        !(event is Installed) && !(event is Published) ==> ({
            let step = develop_step(DevelopMode::Warm, event, cancelled);
            step != DevelopStep::Install && step != DevelopStep::Publish && step
                != DevelopStep::ReportFailure
        }),
        !(develop_step(DevelopMode::Prefetch, event, cancelled) is Offer),
{
}

/// A folder-warm obligation is dropped only when it was met or cannot be met:
/// cancellation retries it and temporary pressure parks it.
pub proof fn law_warm_obligations_are_kept(completion: DevelopCompletion)
    ensures
        warm_outcome(completion) == JobCompletion::Complete ==> completion
            == DevelopCompletion::Finished || (completion matches DevelopCompletion::Persistence {
            outcome,
            ..
        } && (outcome == PersistenceEnqueue::Queued || outcome == PersistenceEnqueue::Coalesced
            || outcome == PersistenceEnqueue::Oversized || outcome == PersistenceEnqueue::Closed)),
{
}

/// A cancelled rehydration reads no file, offers no pixels to the cache and
/// develops nothing, between its stages.
pub proof fn law_cancelled_rehydration_stops(
    mode: DevelopMode,
    has_disk: bool,
    event: RehydrateEvent,
)
    requires
        event == RehydrateEvent::Started || event == RehydrateEvent::RamMissing || event
            == RehydrateEvent::RamDecoded || event == RehydrateEvent::DiskRead || event
            == RehydrateEvent::DiskDecoded,
    ensures
        rehydrate_step(mode, has_disk, event, true) == RehydrateStep::Done,
{
}

/// A job starts with the work that it was planned for, unless pixels that it would
/// render have become resident: then they are published again, and persisted where
/// they are in Full resolution and not speculative.
pub proof fn law_jobs_start_with_their_work(
    action: Action,
    tier: Tier,
    has_rgba: bool,
    start: JobStart,
)
    requires
        call_ensures(start_job, (action, tier, has_rgba), start),
    ensures
        action == Action::Metadata ==> start == JobStart::Metadata,
        action == Action::Thumb ==> start == JobStart::Thumb,
        action == Action::PersistResident ==> start == JobStart::PersistResident,
        action matches Action::WarmDevelop(quality) ==> start == JobStart::Warm(quality),
        action matches Action::Develop(quality) ==> (!has_rgba ==> start == JobStart::Develop(
            quality,
        )),
        action == Action::Rehydrate && !has_rgba ==> start == JobStart::Rehydrate(
            DevelopMode::Display,
        ),
        action == Action::PrefetchFull && !has_rgba ==> start == JobStart::Rehydrate(
            DevelopMode::Prefetch,
        ),
        has_rgba && (action is Develop || action == Action::Rehydrate) ==> start
            == (JobStart::ReuseResident { persist: tier == Tier::Full }),
        has_rgba && action == Action::PrefetchFull ==> start == (JobStart::ReuseResident {
            persist: false,
        }),
{
}

/// Only speculative work is suppressed: a panic of it, or an attempt that was not
/// cancelled and left no pixels. Everything else is complete. Only a deferred job
/// waits for bytes, and for those that it was deferred for.
pub proof fn law_only_failed_speculation_is_suppressed(
    cancelled: bool,
    has_rgba: bool,
    action: Action,
    completion: JobCompletion,
    attempted: JobCompletion,
    panicked: JobCompletion,
    bytes: Option<usize>,
)
    requires
        call_ensures(prefetch_completion, (cancelled, has_rgba), attempted),
        call_ensures(panic_completion, (action,), panicked),
        call_ensures(deferred_bytes, (completion,), bytes),
    ensures
        attempted == JobCompletion::SuppressSpeculative <==> !cancelled && !has_rgba,
        attempted == JobCompletion::SuppressSpeculative || attempted == JobCompletion::Complete,
        panicked == JobCompletion::SuppressSpeculative <==> action == Action::PrefetchFull,
        panicked == JobCompletion::SuppressSpeculative || panicked == JobCompletion::Complete,
        bytes matches Some(required) ==> completion == (JobCompletion::DeferBackground {
            required_bytes: required,
        }),
        bytes is None ==> !(completion is DeferBackground),
{
}

/// A panicked worker reports what it was asked for, under the image and tier of the
/// job, with the words of the panic; warming and persistence report nothing.
pub proof fn law_panics_are_reported(
    id: JobId,
    action: Action,
    detail: Option<&str>,
    event: Option<Event>,
)
    requires
        call_ensures(worker_panic_event, (id, action, detail), event),
    ensures
        event is None <==> action == Action::PersistResident || action is WarmDevelop,
        action == Action::Metadata ==> (event matches Some(Event::MetadataFailed { index, error })
            && index == id.0 && error@.take(17) == "worker panicked: "@ && (detail matches Some(
            words,
        ) ==> error@.skip(17) == words@)),
        action == Action::Thumb || action is Develop || action == Action::PrefetchFull || action
            == Action::Rehydrate ==> (event matches Some(Event::ImageFailed { index, tier, error })
            && index == id.0 && tier == id.1 && error@.take(17) == "worker panicked: "@ && (
        detail matches Some(words) ==> error@.skip(17) == words@)),
{
    reveal_strlit("worker panicked: ");
    if let Some(Event::MetadataFailed { index, error }) = event {
        assert(error@.take(17) =~= "worker panicked: "@);
        if let Some(words) = detail {
            assert(error@.skip(17) =~= words@);
        }
    }
    if let Some(Event::ImageFailed { index, tier, error }) = event {
        assert(error@.take(17) =~= "worker panicked: "@);
        if let Some(words) = detail {
            assert(error@.skip(17) =~= words@);
        }
    }
}

/// A metadata scan that was not cancelled reports its image and what came of it, and
/// rehydrated pixels are announced exactly where the cache took them.
pub proof fn law_results_are_reported_once(
    index: usize,
    scanned: Result<FileMeta, String>,
    cancelled: bool,
    event: Option<Event>,
    tier: Tier,
    accepted: bool,
    ready: Option<Event>,
)
    requires
        call_ensures(metadata_event, (index, scanned, cancelled), event),
        call_ensures(rehydrated_event, (index, tier, accepted), ready),
    ensures
        cancelled ==> event is None,
        !cancelled ==> match scanned {
            Ok(found) => event matches Some(Event::MetadataReady { index: i, meta }) && i == index
                && *meta == found,
            Err(reason) => event matches Some(Event::MetadataFailed { index: i, error }) && i
                == index && error == reason,
        },
        accepted ==> ready == Some(Event::ImageReady { index, tier }),
        !accepted ==> ready is None,
{
}

/// A development that is not cancelled goes through its stages in order: the RAW file
/// is loaded, developed and rotated. What is for display or prefetch is then offered
/// to the cache and, where it was taken, announced; display pixels without an
/// encoding are offered for persistence, to RAM as well. What is to be warmed is
/// offered for persistence at once, and not to RAM. A failure is reported, but for
/// warming, and ends the development.
pub proof fn law_development_goes_stage_by_stage(
    mode: DevelopMode,
    event: DevelopEvent,
    step: DevelopStep,
)
    requires
        mode == DevelopMode::Warm ==> !(event is Installed) && !(event is Published),
        call_ensures(next_develop_step, (mode, event, false), step),
    ensures
        event == DevelopEvent::Started ==> step == DevelopStep::Load,
        event == DevelopEvent::Loaded ==> step == DevelopStep::Develop,
        event == DevelopEvent::Developed ==> step == DevelopStep::Orient,
        event == DevelopEvent::Oriented && mode == DevelopMode::Warm ==> step
            == (DevelopStep::Offer { insert_ram: false, warm_completion: true }),
        event == DevelopEvent::Oriented && mode != DevelopMode::Warm ==> step
            == DevelopStep::Install,
        event == (DevelopEvent::Installed { accepted: true }) ==> step == DevelopStep::Publish,
        event == (DevelopEvent::Installed { accepted: false }) ==> step == DevelopStep::Done(
            DevelopCompletion::Finished,
        ),
        event == (DevelopEvent::Published { has_jpeg: false }) && mode == DevelopMode::Display
            ==> step == (DevelopStep::Offer { insert_ram: true, warm_completion: false }),
        event is Published && (mode == DevelopMode::Prefetch || event == (DevelopEvent::Published {
            has_jpeg: true,
        })) ==> step == DevelopStep::Done(DevelopCompletion::Finished),
        event == DevelopEvent::Failed && mode == DevelopMode::Warm ==> step
            == DevelopStep::SilenceFailure,
        event == DevelopEvent::Failed && mode != DevelopMode::Warm ==> step
            == DevelopStep::ReportFailure,
        event == DevelopEvent::FailureHandled ==> step == DevelopStep::Done(
            DevelopCompletion::Finished,
        ),
        event matches DevelopEvent::Offered { outcome, retained_bytes } ==> step
            == DevelopStep::Done(DevelopCompletion::Persistence { outcome, retained_bytes }),
{
}

/// A cancelled development stops before its next stage, silences a failure, and does
/// not take back what it handed over: pixels that were taken are still announced,
/// and what became of an offer is still told.
pub proof fn law_cancellation_stops_before_the_next_stage(
    mode: DevelopMode,
    event: DevelopEvent,
    step: DevelopStep,
    otherwise: DevelopStep,
)
    requires
        mode == DevelopMode::Warm ==> !(event is Installed) && !(event is Published),
        call_ensures(next_develop_step, (mode, event, true), step),
        call_ensures(next_develop_step, (mode, event, false), otherwise),
    ensures
        event is Installed || event is Published || event is Offered ==> step == otherwise,
        event == DevelopEvent::Failed ==> step == DevelopStep::SilenceFailure,
        !(event is Installed) && !(event is Published) && !(event is Offered) && event
            != DevelopEvent::Failed ==> step == DevelopStep::Done(DevelopCompletion::Cancelled),
{
}

/// A warm job is retried where it was cancelled, parked for its bytes where the lane
/// could not take its pixels for now, and complete in every other case.
pub proof fn law_warm_jobs_wait_for_their_bytes(
    completion: DevelopCompletion,
    outcome: JobCompletion,
)
    requires
        call_ensures(warm_job_completion, (completion,), outcome),
    ensures
        outcome == JobCompletion::RetryBackground <==> completion == DevelopCompletion::Cancelled,
        completion matches DevelopCompletion::Persistence { outcome: offer, retained_bytes }
            ==> outcome == if offer == PersistenceEnqueue::Busy || offer
            == PersistenceEnqueue::Saturated {
            JobCompletion::DeferBackground { required_bytes: retained_bytes }
        } else {
            JobCompletion::Complete
        },
        completion == DevelopCompletion::Finished ==> outcome == JobCompletion::Complete,
{
}

/// A warm job develops only where nothing meets it already: neither encoded bytes in
/// RAM, nor the disk, nor a request that waits for the lane. Without a disk cache
/// there is nothing to warm.
pub proof fn law_warming_looks_before_it_develops(
    has_jpeg: bool,
    has_disk: bool,
    on_disk: bool,
    present: bool,
    cancelled: bool,
    started: WarmStep,
    probed: WarmStep,
    marked: WarmStep,
)
    requires
        call_ensures(
            next_warm_step,
            (WarmEvent::Started { has_jpeg, has_disk }, cancelled),
            started,
        ),
        call_ensures(next_warm_step, (WarmEvent::Probed { on_disk }, cancelled), probed),
        call_ensures(next_warm_step, (WarmEvent::Marked { present }, cancelled), marked),
    ensures
        cancelled ==> started == WarmStep::Done(JobCompletion::RetryBackground),
        !cancelled && has_disk && !has_jpeg ==> started == WarmStep::ProbeDisk,
        !cancelled && (has_jpeg || !has_disk) ==> started == WarmStep::Done(
            JobCompletion::Complete,
        ),
        on_disk ==> probed == WarmStep::Done(JobCompletion::Complete),
        !on_disk ==> probed == WarmStep::MarkPending,
        present ==> marked == WarmStep::Done(JobCompletion::Complete),
        !present ==> marked == WarmStep::Develop,
{
}

/// A rehydration that is not cancelled looks in RAM, then on the disk, then develops.
/// What decodes is offered to the cache; disk bytes that were taken for display are
/// kept in RAM. Corrupt bytes are dropped where they lie, and an object that is gone
/// is forgotten before the RAW file is developed.
pub proof fn law_rehydration_goes_from_ram_to_disk_to_raw(
    mode: DevelopMode,
    has_disk: bool,
    event: RehydrateEvent,
    step: RehydrateStep,
)
    requires
        call_ensures(next_rehydrate_step, (mode, has_disk, event, false), step),
    ensures
        event == RehydrateEvent::Started ==> step == RehydrateStep::ReadRam,
        event == RehydrateEvent::RamDecoded ==> step == RehydrateStep::InstallFromRam,
        event == RehydrateEvent::RamCorrupt ==> step == RehydrateStep::DropRam,
        event == RehydrateEvent::RamMissing && has_disk ==> step == RehydrateStep::ReadDisk,
        event == RehydrateEvent::RamMissing && !has_disk ==> step == RehydrateStep::Develop,
        event == RehydrateEvent::DiskRead ==> step == RehydrateStep::DecodeDisk,
        event == RehydrateEvent::DiskDecoded ==> step == RehydrateStep::InstallFromDisk,
        event == RehydrateEvent::DiskCorrupt ==> step == RehydrateStep::EvictDisk,
        event == RehydrateEvent::DiskMissing ==> step == RehydrateStep::Forget,
        event == RehydrateEvent::Forgotten ==> step == RehydrateStep::Develop,
        event == (RehydrateEvent::DiskInstalled { accepted: true }) && mode == DevelopMode::Display
            ==> step == RehydrateStep::KeepEncoded,
        event is DiskInstalled && (mode != DevelopMode::Display || event
            == (RehydrateEvent::DiskInstalled { accepted: false })) ==> step == RehydrateStep::Done,
        event == RehydrateEvent::Kept || event == RehydrateEvent::RamInstalled ==> step
            == RehydrateStep::Done,
{
}

/// Cancellation changes a rehydration only between its stages, where it ends it: what
/// was decoded in vain is still cleaned up, and what was taken is still kept.
pub proof fn law_cancelled_rehydration_still_cleans_up(
    mode: DevelopMode,
    has_disk: bool,
    event: RehydrateEvent,
    step: RehydrateStep,
    otherwise: RehydrateStep,
)
    requires
        call_ensures(next_rehydrate_step, (mode, has_disk, event, true), step),
        call_ensures(next_rehydrate_step, (mode, has_disk, event, false), otherwise),
    ensures
        event == RehydrateEvent::Started || event == RehydrateEvent::RamMissing || event
            == RehydrateEvent::RamDecoded || event == RehydrateEvent::DiskRead || event
            == RehydrateEvent::DiskDecoded ==> step == RehydrateStep::Done,
        event == RehydrateEvent::RamCorrupt || event == RehydrateEvent::DiskCorrupt || event
            == RehydrateEvent::DiskMissing || event == RehydrateEvent::Forgotten || event
            is DiskInstalled || event == RehydrateEvent::Kept || event
            == RehydrateEvent::RamInstalled ==> step == otherwise,
{
}

/// Resident pixels are offered for persistence only where they are still there and
/// no encoding of them is known, in RAM or on the disk.
pub proof fn law_resident_pixels_are_encoded_once(
    has_jpeg: bool,
    known_present: bool,
    has_disk: bool,
    on_disk: bool,
    resident: bool,
    cancelled: bool,
    started: ResidentStep,
    probed: ResidentStep,
    fetched: ResidentStep,
)
    requires
        call_ensures(
            next_resident_step,
            (ResidentEvent::Started { has_jpeg, known_present, has_disk }, cancelled),
            started,
        ),
        call_ensures(next_resident_step, (ResidentEvent::Probed { on_disk }, cancelled), probed),
        call_ensures(
            next_resident_step,
            (ResidentEvent::Fetched { resident }, cancelled),
            fetched,
        ),
    ensures
        started == ResidentStep::Done <==> cancelled || has_jpeg || known_present,
        started == ResidentStep::ProbeDisk <==> !cancelled && !has_jpeg && !known_present
            && has_disk,
        started == ResidentStep::Fetch <==> !cancelled && !has_jpeg && !known_present && !has_disk,
        on_disk ==> probed == ResidentStep::RememberPresent,
        !on_disk ==> probed == ResidentStep::Fetch,
        fetched == ResidentStep::Offer <==> resident && !cancelled,
        fetched == ResidentStep::Offer || fetched == ResidentStep::Done,
{
}

/// A write is tried again until it succeeds or its attempts run out, and waits at
/// least as long before each retry as before the one in front of it, from two
/// milliseconds up to eight, twice as long each time until then.
pub proof fn law_retries_back_off(
    attempts: usize,
    attempt: usize,
    succeeded: bool,
    step: RetryStep,
    retry: usize,
    first: u64,
    millis: u64,
    next: u64,
)
    requires
        attempt == 0 || attempt < attempts,
        call_ensures(next_retry_step, (attempts, attempt, succeeded), step),
        1 <= retry < usize::MAX,
        call_ensures(retry_backoff_millis, (1,), first),
        call_ensures(retry_backoff_millis, (retry,), millis),
        call_ensures(retry_backoff_millis, ((retry + 1) as usize,), next),
    ensures
        succeeded <==> step == RetryStep::Succeeded,
        !succeeded && attempt + 1 < attempts ==> step == RetryStep::Backoff((attempt + 1) as usize),
        !succeeded && attempt + 1 >= attempts ==> step == RetryStep::GiveUp,
        first == 2,
        next == if millis < 8 {
            2 * millis
        } else {
            8
        },
        millis <= 8,
{
}

/// A successful write ends the attempts: what comes back is a success exactly where
/// one of the attempts succeeded, and else the error of the last one, of which there
/// were as many as allowed, and at least one.
pub proof fn law_one_success_is_enough<E, W: Fn() -> Result<(), E>, B: Fn(usize)>(
    attempts: usize,
    write: W,
    backoff: B,
    written: Result<(), E>,
) -> (results: Seq<Result<(), E>>)
    requires
        call_ensures(retry_persistence_write::<E, W, B>, (attempts, write, backoff), written),
    ensures
        results.len() >= 1,
        results.len() <= attempts || results.len() == 1,
        forall|i: int| 0 <= i < results.len() ==> write.ensures((), #[trigger] results[i]),
        results[results.len() - 1] == written,
        forall|i: int| 0 <= i < results.len() - 1 ==> (#[trigger] results[i]) is Err,
        written is Err && attempts > 0 ==> results.len() == attempts,
        forall|retry: usize|
            1 <= retry < results.len() ==> #[trigger] backoff.ensures((retry,), ()),
{
    choose|results: Seq<Result<(), E>>| #[trigger]
        may_write(attempts, write, backoff, results) && results.last() == written
}

/// Encoded bytes enter RAM exactly where there are any and display asked for them,
/// and a failure is blamed on warming exactly where a warm obligation took part.
pub proof fn law_encodings_serve_the_display(
    encoded: bool,
    completion: PersistenceCompletion,
    follow_up: PersistenceFollowUp,
)
    requires
        call_ensures(persistence_follow_up, (encoded, completion), follow_up),
    ensures
        follow_up.insert_jpeg <==> encoded && completion.insert_ram,
        follow_up.blames_warming <==> completion.warm_completion,
{
}

} // verus!
