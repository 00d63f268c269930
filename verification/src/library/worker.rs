//! Commands of the persistence worker, its wait for a configured database, and
//! the decisions around one sidecar write.

use std::collections::VecDeque;

use vstd::prelude::*;

use crate::library::journal::{
    add_delay, later, time_until, until, SHUTDOWN_FLUSH_ATTEMPTS,
};
use crate::library::ratings::RawIdentity;
use crate::text::same_text;

verus! {

/// Longest wait for the database's own lock on one attempt, in milliseconds.
pub const DB_OPEN_ATTEMPT_TIMEOUT_MS: u64 = 50;

/// Delay before a locked database is opened again, in milliseconds.
pub const DB_OPEN_LOCK_RETRY_MS: u64 = 50;

/// Delay before a database that failed otherwise is opened again, in
/// milliseconds.
pub const DB_OPEN_OTHER_RETRY_MS: u64 = 1_000;

// ---------------------------------------------------------------------------
// Commands
// ---------------------------------------------------------------------------

/// A rating that a caller asked for.
#[derive(Debug, Clone, Copy, PartialEq, Eq, Structural)]
pub struct RatingRequest {
    pub path: u64,
    pub identity: RawIdentity,
    pub rating: u8,
}

/// A command to the worker.
#[derive(Debug, Clone, Copy, PartialEq, Eq, Structural)]
pub enum Command {
    SetRating(RatingRequest),
    /// Publish everything; `reply` tells whether the caller waits.
    Flush { reply: bool },
    Shutdown,
}

/// What the worker's wait ended with.
#[derive(Debug, Clone, Copy, PartialEq, Eq, Structural)]
pub enum Received {
    Command(Command),
    Timeout,
    Disconnected,
}

/// What the worker does next.
#[derive(Debug, Clone, Copy, PartialEq, Eq, Structural)]
pub enum Work {
    /// Resolve, record and accept a rating.
    Accept(RatingRequest),
    /// Publish everything, and answer a caller that waits.
    FlushAll { reply: bool },
    /// Publish what is due.
    FlushDue,
    /// Publish everything in bounded attempts, and stop.
    FinalFlush,
}

/// What a worker with its database open does with what it received.
pub open spec fn work_of(received: Received) -> Work {
    match received {
        Received::Command(Command::SetRating(request)) => Work::Accept(request),
        Received::Command(Command::Flush { reply }) => Work::FlushAll { reply },
        Received::Command(Command::Shutdown) => Work::FinalFlush,
        Received::Disconnected => Work::FinalFlush,
        Received::Timeout => Work::FlushDue,
    }
}

/// Decides what to do with what was received.
pub fn work_for(received: Received) -> (work: Work)
    ensures
        work == work_of(received),
{
    match received {
        Received::Command(Command::SetRating(request)) => Work::Accept(request),
        Received::Command(Command::Flush { reply }) => Work::FlushAll { reply },
        Received::Command(Command::Shutdown) => Work::FinalFlush,
        Received::Disconnected => Work::FinalFlush,
        Received::Timeout => Work::FlushDue,
    }
}

/// What follows an attempt at the flush of a shutdown.
#[derive(Debug, Clone, Copy, PartialEq, Eq, Structural)]
pub enum ShutdownStep {
    /// Pause, then make the attempt of this number, counted from zero.
    Pause(usize),
    /// Stop; carries whether nothing is left to flush.
    Done(bool),
}

/// Decides what follows attempt number `attempt`, counted from zero: a clean flush
/// ends the attempts, a failed one is repeated after a pause, and nothing follows
/// the last one.
pub fn next_shutdown_step(attempt: usize, clean: bool) -> (step: ShutdownStep)
    requires
        attempt < SHUTDOWN_FLUSH_ATTEMPTS,
    ensures
        step == if clean {
            ShutdownStep::Done(true)
        } else if attempt + 1 < SHUTDOWN_FLUSH_ATTEMPTS {
            ShutdownStep::Pause((attempt + 1) as usize)
        } else {
            ShutdownStep::Done(false)
        },
{
    if clean {
        ShutdownStep::Done(true)
    } else if attempt + 1 < SHUTDOWN_FLUSH_ATTEMPTS {
        ShutdownStep::Pause(attempt + 1)
    } else {
        ShutdownStep::Done(false)
    }
}

/// Whether flushes can have had some replies, one per attempt: all but the last
/// one failed, with a pause before each that follows, and a failure is the last
/// one only where the attempts ran out.
pub open spec fn may_flush<F: Fn() -> bool, P: Fn()>(flush: F, pause: P, replies: Seq<bool>) -> bool {
    &&& 1 <= replies.len() <= SHUTDOWN_FLUSH_ATTEMPTS
    &&& forall|i: int| 0 <= i < replies.len() ==> flush.ensures((), #[trigger] replies[i])
    &&& forall|i: int| 0 <= i < replies.len() - 1 ==> !#[trigger] replies[i]
    &&& replies.len() > 1 ==> pause.ensures((), ())
    &&& !replies.last() ==> replies.len() == SHUTDOWN_FLUSH_ATTEMPTS
}

/// Repeats a failed flush, with a pause between attempts, until it succeeds or
/// the attempts run out. Returns whether the last flush left nothing. What follows
/// each attempt is decided by [`next_shutdown_step`].
pub fn retry_shutdown_flush<F: Fn() -> bool, P: Fn()>(flush: F, pause: P) -> (clean: bool)
    requires
        flush.requires(()),
        pause.requires(()),
    ensures
        exists|replies: Seq<bool>| #[trigger]
            may_flush(flush, pause, replies) && replies.last() == clean,
{
    let mut attempt: usize = 0;
    let ghost mut replies: Seq<bool> = seq![];
    loop
        invariant
            attempt < SHUTDOWN_FLUSH_ATTEMPTS,
            flush.requires(()),
            pause.requires(()),
            replies.len() == attempt,
            attempt > 0 ==> pause.ensures((), ()),
            forall|i: int|
                0 <= i < replies.len() ==> flush.ensures((), #[trigger] replies[i])
                    && !replies[i],
        decreases SHUTDOWN_FLUSH_ATTEMPTS - attempt,
    {
        let reply: bool = flush();
        proof {
            replies = replies.push(reply);
        }
        match next_shutdown_step(attempt, reply) {
            ShutdownStep::Pause(next) => {
                pause();
                attempt = next;
            },
            ShutdownStep::Done(clean) => {
                assert(may_flush(flush, pause, replies));
                return clean;
            },
        }
    }
}

// ---------------------------------------------------------------------------
// Waiting for the database
// ---------------------------------------------------------------------------

/// What the worker does while its database is not open.
#[derive(Debug, Clone, Copy, PartialEq, Eq, Structural)]
pub enum WaitStep {
    /// Wait on.
    Continue,
    /// Tell the waiting caller that the flush is incomplete, and wait on.
    ReplyIncomplete,
    /// Open the database one last time, and stop.
    OpenForShutdown,
}

/// A worker whose configured database is not open. The database is an ownership
/// boundary, not an optional cache: updates wait for it in the order they came.
pub struct DatabaseWait {
    backlog: VecDeque<Command>,
    retry_at: u64,
    last_error: Option<String>,
}

/// A waiting worker over sequences.
#[verifier::ext_equal]
pub struct WaitModel {
    pub backlog: Seq<Command>,
    pub retry_at: u64,
    pub last_error: Option<Seq<char>>,
}

impl View for DatabaseWait {
    type V = WaitModel;

    closed spec fn view(&self) -> WaitModel {
        WaitModel {
            backlog: self.backlog@,
            retry_at: self.retry_at,
            last_error: match self.last_error {
                Some(text) => Some(text@),
                None => None,
            },
        }
    }
}

/// The command as it waits: nobody waits for a flush that was already answered.
pub open spec fn deferred(command: Command) -> Command {
    match command {
        Command::Flush { .. } => Command::Flush { reply: false },
        _ => command,
    }
}

/// The state and step of a waiting worker after it received something.
pub open spec fn waited(model: WaitModel, received: Received) -> (WaitModel, WaitStep) {
    match received {
        Received::Timeout => (model, WaitStep::Continue),
        Received::Disconnected => (model, WaitStep::OpenForShutdown),
        Received::Command(Command::Shutdown) => (model, WaitStep::OpenForShutdown),
        Received::Command(command) => (
            WaitModel { backlog: model.backlog.push(deferred(command)), ..model },
            if command == (Command::Flush { reply: true }) {
                WaitStep::ReplyIncomplete
            } else {
                WaitStep::Continue
            },
        ),
    }
}

/// Ratings among some commands.
pub open spec fn ratings_in(commands: Seq<Command>) -> nat
    decreases commands.len(),
{
    if commands.len() == 0 {
        0
    } else {
        ratings_in(commands.drop_last()) + if commands.last() is SetRating {
            1nat
        } else {
            0nat
        }
    }
}

impl DatabaseWait {
    /// A worker that may open its database at once.
    pub fn new(now: u64) -> (wait: Self)
        ensures
            wait@ == (WaitModel { backlog: seq![], retry_at: now, last_error: None }),
    {
        let wait = DatabaseWait { backlog: VecDeque::new(), retry_at: now, last_error: None };
        assert(wait@ =~= (WaitModel { backlog: seq![], retry_at: now, last_error: None }));
        wait
    }

    /// Whether it is time to try the database.
    pub fn should_open(&self, now: u64) -> (open: bool)
        ensures
            open == (now >= self@.retry_at),
    {
        now >= self.retry_at
    }

    /// Milliseconds to wait for a command before the next try.
    pub fn wait_ms(&self, now: u64) -> (wait: u64)
        ensures
            wait == until(self@.retry_at, now),
    {
        time_until(self.retry_at, now)
    }

    /// Notes a failed attempt. A locked database is tried again soon, any other
    /// failure later. Returns whether the error is worth reporting: it is not
    /// the one that was reported last.
    pub fn open_failed(&mut self, now: u64, lock_contention: bool, message: String) -> (report: bool)
        ensures
            report == (old(self)@.last_error != Some(message@)),
            final(self)@ == (WaitModel {
                backlog: old(self)@.backlog,
                retry_at: later(
                    now,
                    if lock_contention {
                        DB_OPEN_LOCK_RETRY_MS
                    } else {
                        DB_OPEN_OTHER_RETRY_MS
                    },
                ),
                last_error: Some(message@),
            }),
    {
        let report: bool = match &self.last_error {
            Some(last) => !same_text(last.as_str(), message.as_str()),
            None => true,
        };
        if report {
            self.last_error = Some(message);
        }
        let delay: u64 = if lock_contention {
            DB_OPEN_LOCK_RETRY_MS
        } else {
            DB_OPEN_OTHER_RETRY_MS
        };
        self.retry_at = add_delay(now, delay);
        report
    }

    /// Takes what was received while the database is not open. A caller that
    /// waits for a flush is told that it is incomplete, and an asynchronous
    /// flush stays at the same place in line.
    pub fn receive(&mut self, received: Received) -> (step: WaitStep)
        ensures
            (final(self)@, step) == waited(old(self)@, received),
    {
        match received {
            Received::Timeout => WaitStep::Continue,
            Received::Disconnected => WaitStep::OpenForShutdown,
            Received::Command(command) => match command {
                Command::Shutdown => WaitStep::OpenForShutdown,
                Command::Flush { reply } => {
                    self.backlog.push_back(Command::Flush { reply: false });
                    if reply {
                        WaitStep::ReplyIncomplete
                    } else {
                        WaitStep::Continue
                    }
                },
                Command::SetRating(_) => {
                    self.backlog.push_back(command);
                    WaitStep::Continue
                },
            },
        }
    }

    /// Hands over the commands that waited, oldest first.
    pub fn into_backlog(self) -> (backlog: VecDeque<Command>)
        ensures
            backlog@ == self@.backlog,
    {
        self.backlog
    }

    /// Hands over the commands that waited, followed by the shutdown.
    pub fn into_shutdown_backlog(self) -> (backlog: VecDeque<Command>)
        ensures
            backlog@ == self@.backlog.push(Command::Shutdown),
    {
        let mut backlog = self.backlog;
        backlog.push_back(Command::Shutdown);
        backlog
    }

    /// Ratings that stay unpublished if the database never opens.
    pub fn unpersisted(&self) -> (count: usize)
        ensures
            count == ratings_in(self@.backlog),
    {
        let mut count: usize = 0;
        let mut i: usize = 0;
        let len: usize = self.backlog.len();
        proof {
            assert(self@.backlog.take(0) =~= seq![]);
        }
        while i < len
            invariant
                len == self@.backlog.len(),
                i <= len,
                count <= i,
                count == ratings_in(self@.backlog.take(i as int)),
                self@.backlog == self.backlog@,
            decreases len - i,
        {
            assert(self@.backlog.take(i + 1).drop_last() =~= self@.backlog.take(i as int));
            match self.backlog[i] {
                Command::SetRating(_) => {
                    count += 1;
                },
                _ => {},
            }
            i += 1;
        }
        assert(self@.backlog.take(i as int) =~= self@.backlog);
        count
    }
}

/// Commands wait in the order they came: what waited before stays in front.
pub proof fn law_backlog_keeps_order(model: WaitModel, received: Received)
    ensures
        model.backlog.is_prefix_of(waited(model, received).0.backlog),
        received matches Received::Command(Command::SetRating(request)) ==> waited(
            model,
            received,
        ).0.backlog == model.backlog.push(Command::SetRating(request)),
        received is Timeout || received is Disconnected ==> waited(model, received).0 == model,
{
    assert(model.backlog.is_prefix_of(waited(model, received).0.backlog));
}

/// A caller that waits for a flush is never told that it succeeded while the
/// database is not open.
pub proof fn law_flush_without_database_is_incomplete(model: WaitModel)
    ensures
        waited(model, Received::Command(Command::Flush { reply: true })).1
            == WaitStep::ReplyIncomplete,
{
}

// ---------------------------------------------------------------------------
// Opening the database
// ---------------------------------------------------------------------------

/// What the worker does once its database opened.
#[derive(Debug, Clone, Copy, PartialEq, Eq, Structural)]
pub enum StartupStep {
    /// Publish what a prior process left. A replaced or retargeted RAW file can
    /// then not appear in a snapshot and disappear right after.
    FlushRecovered,
    /// Signal that a snapshot of the ratings may be taken.
    SignalReady,
    /// Call back whoever waits for the signal.
    Notify,
    /// Serve commands, those that waited first.
    Serve,
}

/// Position of a step in the startup.
pub open spec fn startup_rank(step: StartupStep) -> int {
    match step {
        StartupStep::FlushRecovered => 0,
        StartupStep::SignalReady => 1,
        StartupStep::Notify => 2,
        StartupStep::Serve => 3,
    }
}

/// The step after another one; a callback that panicked changes nothing.
pub fn next_startup_step(done: StartupStep) -> (next: StartupStep)
    ensures
        done != StartupStep::Serve ==> startup_rank(next) == startup_rank(done) + 1,
        done == StartupStep::Serve ==> next == StartupStep::Serve,
{
    match done {
        StartupStep::FlushRecovered => StartupStep::SignalReady,
        StartupStep::SignalReady => StartupStep::Notify,
        StartupStep::Notify => StartupStep::Serve,
        StartupStep::Serve => StartupStep::Serve,
    }
}

// ---------------------------------------------------------------------------
// Callers
// ---------------------------------------------------------------------------

/// The callers' side of the rating persistence service.
///
/// Updates go to a worker, which journals them and coalesces repeated changes to
/// the same photo before writing its XMP sidecar. The service remembers whether
/// anything changed since the last flush, so an ordinary navigation asks nothing
/// of the worker.
pub struct Library {
    dirty: bool,
    database_configured: bool,
    database_ready: bool,
}

/// The callers' side over plain values.
pub struct LibraryModel {
    pub dirty: bool,
    pub database_configured: bool,
    pub database_ready: bool,
}

impl View for Library {
    type V = LibraryModel;

    closed spec fn view(&self) -> LibraryModel {
        LibraryModel {
            dirty: self.dirty,
            database_configured: self.database_configured,
            database_ready: self.database_ready,
        }
    }
}

impl Library {
    /// A service with nothing to flush. Without a database there is nothing to
    /// wait for.
    pub fn start(database_configured: bool) -> (library: Self)
        ensures
            library@ == (LibraryModel {
                dirty: false,
                database_configured,
                database_ready: !database_configured,
            }),
    {
        Library { dirty: false, database_configured, database_ready: !database_configured }
    }

    /// Returns whether this service has a platform database path to open.
    pub fn database_configured(&self) -> (configured: bool)
        ensures
            configured == self@.database_configured,
    {
        self.database_configured
    }

    /// Returns true after the configured database has opened and completed any
    /// required schema migration or repair.
    pub fn database_ready(&self) -> (ready: bool)
        ensures
            ready == self@.database_ready,
    {
        self.database_ready
    }

    /// Notes that the database is open and recovered.
    pub fn mark_database_ready(&mut self)
        ensures
            final(self)@ == (LibraryModel { database_ready: true, ..old(self)@ }),
    {
        self.database_ready = true;
    }

    /// Notes a rating that was queued; one that the worker no longer takes is
    /// ignored.
    pub fn set_rating(&mut self, queued: bool)
        ensures
            final(self)@ == (LibraryModel { dirty: old(self)@.dirty || queued, ..old(self)@ }),
    {
        if queued {
            self.dirty = true;
        }
    }

    /// Starts a flush. Returns whether the worker has to be asked.
    pub fn flush(&mut self) -> (ask: bool)
        ensures
            ask == old(self)@.dirty,
            final(self)@ == (LibraryModel { dirty: false, ..old(self)@ }),
    {
        let ask: bool = self.dirty;
        self.dirty = false;
        ask
    }

    /// Starts a flush that nobody waits for. Returns whether the worker has to
    /// be asked.
    pub fn request_flush(&mut self) -> (ask: bool)
        ensures
            ask == old(self)@.dirty,
            final(self)@ == (LibraryModel { dirty: false, ..old(self)@ }),
    {
        self.flush()
    }

    /// Notes how a flush ended: one that failed leaves the service dirty, so a
    /// later flush asks the worker again.
    pub fn flush_done(&mut self, clean: bool)
        ensures
            final(self)@ == (LibraryModel { dirty: old(self)@.dirty || !clean, ..old(self)@ }),
    {
        if !clean {
            self.dirty = true;
        }
    }
}

// ---------------------------------------------------------------------------
// One sidecar
// ---------------------------------------------------------------------------

/// Why a sidecar was not written.
#[derive(Debug)]
pub enum SidecarWriteError {
    /// The RAW file could not be examined.
    RawIdentity { path: String, source: String },
    /// The RAW file is not the one that was rated.
    RawReplaced { path: String },
    /// The sidecar could not be written or examined.
    Sidecar(String),
}

/// The text of an error.
pub open spec fn write_error_chars(error: SidecarWriteError) -> Seq<char> {
    match error {
        SidecarWriteError::RawIdentity { path, source } => "RAW identity read failed for "@ + path@
            + ": "@ + source@,
        SidecarWriteError::RawReplaced { path } => "RAW file was replaced: "@ + path@,
        SidecarWriteError::Sidecar(text) => text@,
    }
}

impl SidecarWriteError {
    /// The text of the error.
    pub fn message(&self) -> (text: String)
        ensures
            text@ == write_error_chars(*self),
    {
        match self {
            SidecarWriteError::RawIdentity { path, source } => {
                let mut text = String::from_str("RAW identity read failed for ");
                text.append(path.as_str());
                text.append(": ");
                text.append(source.as_str());
                text
            },
            SidecarWriteError::RawReplaced { path } => {
                let mut text = String::from_str("RAW file was replaced: ");
                text.append(path.as_str());
                text
            },
            SidecarWriteError::Sidecar(text) => {
                let mut copy = String::from_str("");
                copy.append(text.as_str());
                proof {
                    reveal_strlit("");
                    assert(copy@ =~= text@);
                }
                copy
            },
        }
    }
}

/// Checks that the RAW file is still the one that was rated, before its sidecar
/// is written.
pub fn check_raw_identity(
    path: &str,
    current: Result<RawIdentity, String>,
    rated: RawIdentity,
) -> (checked: Result<(), SidecarWriteError>)
    ensures
        match current {
            Ok(identity) => if identity == rated {
                checked is Ok
            } else {
                checked matches Err(SidecarWriteError::RawReplaced { path: named }) && named@
                    == path@
            },
            Err(source) => checked matches Err(
                SidecarWriteError::RawIdentity { path: named, source: reason },
            ) && named@ == path@ && reason@ == source@,
        },
{
    match current {
        Ok(identity) => if identity == rated {
            Ok(())
        } else {
            Err(SidecarWriteError::RawReplaced { path: path.to_owned() })
        },
        Err(source) => Err(SidecarWriteError::RawIdentity { path: path.to_owned(), source }),
    }
}

/// What came of a sidecar write: the sidecar's modification time, or an error
/// that names the sidecar.
pub fn sidecar_outcome(
    sidecar: &str,
    written: Result<(), String>,
    mtime_ns: Option<i64>,
) -> (outcome: Result<i64, SidecarWriteError>)
    ensures
        match written {
            Err(error) => outcome matches Err(SidecarWriteError::Sidecar(text)) && text@
                == "sidecar write failed for "@ + sidecar@ + ": "@ + error@,
            Ok(()) => match mtime_ns {
                Some(mtime) => outcome matches Ok(found) && found == mtime,
                None => outcome matches Err(SidecarWriteError::Sidecar(text)) && text@
                    == "sidecar metadata read failed for "@ + sidecar@,
            },
        },
{
    match written {
        Err(error) => {
            let mut text = String::from_str("sidecar write failed for ");
            text.append(sidecar);
            text.append(": ");
            text.append(error.as_str());
            Err(SidecarWriteError::Sidecar(text))
        },
        Ok(()) => match mtime_ns {
            Some(mtime) => Ok(mtime),
            None => {
                let mut text = String::from_str("sidecar metadata read failed for ");
                text.append(sidecar);
                Err(SidecarWriteError::Sidecar(text))
            },
        },
    }
}

/// What the journal is told of a sidecar write.
#[derive(Debug, Clone, Copy, PartialEq, Eq, Structural)]
pub enum PendingSidecarWrite {
    /// The sidecar holds the rating, with this modification time.
    Written(i64),
    /// The rating is void: the RAW file was replaced.
    Discard,
    Failed,
}

/// Decides what the journal is told of a sidecar write.
pub fn pending_sidecar_write(outcome: &Result<i64, SidecarWriteError>) -> (write:
    PendingSidecarWrite)
    ensures
        write == match *outcome {
            Ok(mtime) => PendingSidecarWrite::Written(mtime),
            Err(SidecarWriteError::RawReplaced { .. }) => PendingSidecarWrite::Discard,
            Err(_) => PendingSidecarWrite::Failed,
        },
{
    match outcome {
        Ok(mtime) => PendingSidecarWrite::Written(*mtime),
        Err(SidecarWriteError::RawReplaced { .. }) => PendingSidecarWrite::Discard,
        Err(_) => PendingSidecarWrite::Failed,
    }
}

// ---------------------------------------------------------------------------
// Laws
// ---------------------------------------------------------------------------

/// A rating is accepted as it was asked for, a flush publishes everything and answers
/// who waits, a wait that ran out publishes what is due, and a shutdown or a lost
/// channel ends with a final flush.
pub proof fn law_every_command_is_served(
    request: RatingRequest,
    reply: bool,
    rated: Work,
    flushed: Work,
    stopped: Work,
    lost: Work,
    idle: Work,
)
    requires
        call_ensures(work_for, (Received::Command(Command::SetRating(request)),), rated),
        call_ensures(work_for, (Received::Command(Command::Flush { reply }),), flushed),
        call_ensures(work_for, (Received::Command(Command::Shutdown),), stopped),
        call_ensures(work_for, (Received::Disconnected,), lost),
        call_ensures(work_for, (Received::Timeout,), idle),
    ensures
        rated == Work::Accept(request),
        flushed == (Work::FlushAll { reply }),
        stopped == Work::FinalFlush,
        lost == Work::FinalFlush,
        idle == Work::FlushDue,
{
}

/// The flush of a shutdown is tried up to three times, and no more often than until
/// it leaves nothing: what is told at the end is what the last attempt left.
pub proof fn law_shutdown_flushes_at_most_three_times<F: Fn() -> bool, P: Fn()>(
    flush: F,
    pause: P,
    clean: bool,
    attempt: usize,
    step: ShutdownStep,
) -> (replies: Seq<bool>)
    requires
        call_ensures(retry_shutdown_flush::<F, P>, (flush, pause), clean),
        attempt < 3,
        call_ensures(next_shutdown_step, (attempt, clean), step),
    ensures
        1 <= replies.len() <= 3,
        forall|i: int| 0 <= i < replies.len() ==> flush.ensures((), #[trigger] replies[i]),
        replies[replies.len() - 1] == clean,
        forall|i: int| 0 <= i < replies.len() - 1 ==> !#[trigger] replies[i],
        !clean ==> replies.len() == 3,
        replies.len() > 1 ==> pause.ensures((), ()),
        clean ==> step == ShutdownStep::Done(true),
        !clean && attempt == 2 ==> step == ShutdownStep::Done(false),
        !clean && attempt < 2 ==> step == ShutdownStep::Pause((attempt + 1) as usize),
{
    choose|replies: Seq<bool>| #[trigger]
        may_flush(flush, pause, replies) && replies.last() == clean
}

/// A worker may open its database once its time has come, and waits until then. After
/// a failure it waits fifty milliseconds for a lock and a second for anything else. An
/// error is reported unless it is the one that was seen last.
pub proof fn law_opening_is_tried_again(
    started: u64,
    fresh: DatabaseWait,
    wait: &mut DatabaseWait,
    now: u64,
    lock_contention: bool,
    message: String,
    report: bool,
    held: &DatabaseWait,
    open: bool,
    left: u64,
)
    requires
        call_ensures(DatabaseWait::new, (started,), fresh),
        call_ensures(DatabaseWait::open_failed, (wait, now, lock_contention, message), report),
        call_ensures(DatabaseWait::should_open, (held, now), open),
        call_ensures(DatabaseWait::wait_ms, (held, now), left),
    ensures
        fresh@.retry_at == started && fresh@.backlog.len() == 0 && fresh@.last_error is None,
        final(wait)@.backlog == old(wait)@.backlog,
        final(wait)@.last_error == Some(message@),
        ({
            let delay: int = if lock_contention {
                50
            } else {
                1_000
            };
            final(wait)@.retry_at == if now + delay <= 18_446_744_073_709_551_615 {
                now + delay
            } else {
                18_446_744_073_709_551_615
            }
        }),
        report <==> !(old(wait)@.last_error matches Some(last) && last == message@),
        open <==> now >= held@.retry_at,
        open ==> left == 0,
        !open ==> now + left == held@.retry_at,
{
}

/// While its database is not open, a worker keeps ratings and flushes in line behind
/// what came before, a flush as one that nobody waits for. Who waits for one is told
/// that it is incomplete. A shutdown or a lost channel opens the database one last
/// time, and nothing else does.
pub proof fn law_commands_wait_in_line(wait: &mut DatabaseWait, received: Received, step: WaitStep)
    requires
        call_ensures(DatabaseWait::receive, (wait, received), step),
    ensures
        ({
            let before = old(wait)@;
            let after = final(wait)@;
            let n = before.backlog.len() as int;
            &&& after.retry_at == before.retry_at && after.last_error == before.last_error
            &&& forall|i: int|
                0 <= i < n ==> i < after.backlog.len() && #[trigger] after.backlog[i]
                    == before.backlog[i]
            &&& received matches Received::Command(Command::SetRating(request)) ==> after.backlog
                .len() == n + 1 && after.backlog[n] == Command::SetRating(request) && step
                == WaitStep::Continue
            &&& received matches Received::Command(Command::Flush { reply }) ==> after.backlog.len()
                == n + 1 && after.backlog[n] == (Command::Flush { reply: false }) && step
                == if reply {
                WaitStep::ReplyIncomplete
            } else {
                WaitStep::Continue
            }
            &&& received == Received::Timeout ==> after.backlog.len() == n && step
                == WaitStep::Continue
            &&& received == Received::Disconnected || received == Received::Command(
                Command::Shutdown,
            ) ==> after.backlog.len() == n && step == WaitStep::OpenForShutdown
        }),
{
}

/// How many of the first `n` commands rate a photo.
pub open spec fn rating_count(commands: Seq<Command>, n: int) -> int
    decreases n,
{
    if n <= 0 {
        0
    } else {
        rating_count(commands, n - 1) + match commands[n - 1] {
            Command::SetRating(_) => 1int,
            Command::Flush { .. } => 0int,
            Command::Shutdown => 0int,
        }
    }
}

proof fn lemma_rating_count(commands: Seq<Command>, n: int)
    requires
        0 <= n <= commands.len(),
    ensures
        rating_count(commands, n) == ratings_in(commands.take(n)),
    decreases n,
{
    if n > 0 {
        lemma_rating_count(commands, n - 1);
        assert(commands.take(n).drop_last() =~= commands.take(n - 1));
        assert(commands.take(n).last() == commands[n - 1]);
    }
}

/// Everything that waited is handed over in order, at a shutdown with the shutdown
/// behind it, and every rating among it counts as unpublished until then.
pub proof fn law_nothing_that_waited_is_lost(
    wait: DatabaseWait,
    held: &DatabaseWait,
    backlog: VecDeque<Command>,
    last: VecDeque<Command>,
    count: usize,
)
    requires
        call_ensures(DatabaseWait::into_backlog, (wait,), backlog),
        call_ensures(DatabaseWait::into_shutdown_backlog, (wait,), last),
        call_ensures(DatabaseWait::unpersisted, (held,), count),
    ensures
        backlog@ == wait@.backlog,
        last@.len() == wait@.backlog.len() + 1,
        last@.last() == Command::Shutdown,
        forall|i: int| 0 <= i < wait@.backlog.len() ==> #[trigger] last@[i] == wait@.backlog[i],
        count == rating_count(held@.backlog, held@.backlog.len() as int),
{
    lemma_rating_count(held@.backlog, held@.backlog.len() as int);
    assert(held@.backlog.take(held@.backlog.len() as int) =~= held@.backlog);
}

/// Once its database is open, a worker flushes what was recovered, then signals that
/// it is ready, then calls back, then serves for good.
pub proof fn law_recovery_comes_before_the_signal(
    flushed: StartupStep,
    signalled: StartupStep,
    notified: StartupStep,
    served: StartupStep,
)
    requires
        call_ensures(next_startup_step, (StartupStep::FlushRecovered,), flushed),
        call_ensures(next_startup_step, (StartupStep::SignalReady,), signalled),
        call_ensures(next_startup_step, (StartupStep::Notify,), notified),
        call_ensures(next_startup_step, (StartupStep::Serve,), served),
    ensures
        flushed == StartupStep::SignalReady,
        signalled == StartupStep::Notify,
        notified == StartupStep::Serve,
        served == StartupStep::Serve,
{
}

/// A service has something to flush after a rating that was queued or a flush that
/// failed, and nothing after a flush was started; only then is the worker asked. It is
/// ready from the start without a database, and with one once it is told so.
pub proof fn law_only_changes_are_flushed(
    configured: bool,
    started: Library,
    rated: &mut Library,
    queued: bool,
    flushed: &mut Library,
    ask: bool,
    requested: &mut Library,
    wants: bool,
    done: &mut Library,
    clean: bool,
    ready: &mut Library,
    held: &Library,
    has_database: bool,
    is_ready: bool,
)
    requires
        call_ensures(Library::start, (configured,), started),
        call_ensures(Library::set_rating, (rated, queued), ()),
        call_ensures(Library::flush, (flushed,), ask),
        call_ensures(Library::request_flush, (requested,), wants),
        call_ensures(Library::flush_done, (done, clean), ()),
        call_ensures(Library::mark_database_ready, (ready,), ()),
        call_ensures(Library::database_configured, (held,), has_database),
        call_ensures(Library::database_ready, (held,), is_ready),
    ensures
        !started@.dirty && started@.database_configured == configured && started@.database_ready
            == !configured,
        final(rated)@.dirty <==> old(rated)@.dirty || queued,
        final(rated)@.database_ready == old(rated)@.database_ready,
        final(rated)@.database_configured == old(rated)@.database_configured,
        ask == old(flushed)@.dirty && !final(flushed)@.dirty,
        final(flushed)@.database_ready == old(flushed)@.database_ready,
        final(flushed)@.database_configured == old(flushed)@.database_configured,
        wants == old(requested)@.dirty && !final(requested)@.dirty,
        final(requested)@.database_ready == old(requested)@.database_ready,
        final(requested)@.database_configured == old(requested)@.database_configured,
        final(done)@.dirty <==> old(done)@.dirty || !clean,
        final(done)@.database_ready == old(done)@.database_ready,
        final(done)@.database_configured == old(done)@.database_configured,
        final(ready)@.database_ready,
        final(ready)@.dirty == old(ready)@.dirty,
        final(ready)@.database_configured == old(ready)@.database_configured,
        has_database == held@.database_configured,
        is_ready == held@.database_ready,
{
}

/// A sidecar is written only for the RAW file that was rated, and a replaced one voids
/// the rating: the journal is told that it was written, and when, exactly where the
/// write succeeded and the sidecar could be examined.
pub proof fn law_sidecars_are_written_for_the_rated_file(
    path: &str,
    current: Result<RawIdentity, String>,
    identity: RawIdentity,
    checked: Result<(), SidecarWriteError>,
    sidecar: &str,
    written: Result<(), String>,
    mtime_ns: Option<i64>,
    outcome: Result<i64, SidecarWriteError>,
    write: PendingSidecarWrite,
)
    requires
        call_ensures(check_raw_identity, (path, current, identity), checked),
        call_ensures(sidecar_outcome, (sidecar, written, mtime_ns), outcome),
        call_ensures(pending_sidecar_write, (&outcome,), write),
    ensures
        checked is Ok <==> current == Ok::<RawIdentity, String>(identity),
        (checked matches Err(SidecarWriteError::RawReplaced { path: named }) && named@ == path@)
            <==> (current matches Ok(found) && found != identity),
        (checked matches Err(SidecarWriteError::RawIdentity { path: named, source }) && named@
            == path@) <==> current is Err,
        outcome is Ok <==> written is Ok && mtime_ns is Some,
        outcome matches Ok(found) ==> mtime_ns == Some(found) && write
            == PendingSidecarWrite::Written(found),
        outcome is Err ==> write == PendingSidecarWrite::Failed,
{
}

/// A rating of a RAW file since replaced is discarded, whatever else is known of it,
/// and only such a rating is.
pub proof fn law_only_replaced_files_discard_a_rating(
    outcome: Result<i64, SidecarWriteError>,
    write: PendingSidecarWrite,
)
    requires
        call_ensures(pending_sidecar_write, (&outcome,), write),
    ensures
        write == PendingSidecarWrite::Discard <==> (outcome matches Err(error) && error
            is RawReplaced),
        write is Written <==> outcome is Ok,
{
}

/// The text of an error ends with what went wrong and holds the path that it is about.
pub proof fn law_error_texts_name_the_file(
    path: String,
    source: String,
    unread: String,
    replaced: String,
    other: String,
)
    requires
        call_ensures(
            SidecarWriteError::message,
            (&SidecarWriteError::RawIdentity { path, source },),
            unread,
        ),
        call_ensures(
            SidecarWriteError::message,
            (&SidecarWriteError::RawReplaced { path },),
            replaced,
        ),
        call_ensures(SidecarWriteError::message, (&SidecarWriteError::Sidecar(source),), other),
    ensures
        unread@.len() == 31 + path@.len() + source@.len(),
        unread@.subrange(29, 29 + path@.len() as int) == path@,
        unread@.skip(31 + path@.len() as int) == source@,
        replaced@.len() == 23 + path@.len(),
        replaced@.skip(23) == path@,
        other@ == source@,
{
    reveal_strlit("RAW identity read failed for ");
    reveal_strlit(": ");
    reveal_strlit("RAW file was replaced: ");
    assert(unread@.subrange(29, 29 + path@.len() as int) =~= path@);
    assert(unread@.skip(31 + path@.len() as int) =~= source@);
    assert(replaced@.skip(23) =~= path@);
}

} // verus!
