//! Debounced publication of accepted ratings.
//!
//! An accepted rating waits here until its sidecar is written. Where a database
//! is configured it is the publication authority: a rating must be journaled
//! before its sidecar is touched. The outside work (resolving owners, journal
//! writes, sidecar writes) happens between the steps; what came of it is the
//! event that leads to the next one.

use std::collections::HashMap;

use vstd::prelude::*;

use crate::library::ratings::RawIdentity;

verus! {

/// Delay between a rating and its sidecar write, in milliseconds.
pub const SIDECAR_DEBOUNCE_MS: u64 = 400;

/// Delay before a failed publication is tried again, in milliseconds.
pub const SIDECAR_RETRY_MS: u64 = 5_000;

/// Wait for commands while nothing is pending, in milliseconds.
pub const IDLE_TIMEOUT_MS: u64 = 3_600_000;

/// Flushes attempted at shutdown.
pub const SHUTDOWN_FLUSH_ATTEMPTS: usize = 3;

/// Pause between flushes at shutdown, in milliseconds.
pub const SHUTDOWN_RETRY_DELAY_MS: u64 = 50;

/// Ownership that the journal showed when a rating was accepted, by the number
/// under which the caller keeps it.
#[derive(Debug, Clone, Copy, PartialEq, Eq, Structural)]
pub enum JournalPredecessor {
    /// Of the sidecar's owner alone.
    Owner(u64),
    /// Of the whole journal.
    Global(u64),
}

/// A rating that waits for publication.
#[derive(Debug, Clone, Copy, PartialEq, Eq, Structural)]
pub struct Pending {
    pub path: u64,
    /// Whether the key is the physical owner of the sidecar. Any other key is
    /// private and never used for journaling or sidecar publication.
    pub owner_resolved: bool,
    pub sequence: u64,
    pub identity: RawIdentity,
    pub rating: u8,
    pub journaled: bool,
    pub journal_predecessor: Option<JournalPredecessor>,
    /// When the rating is due, in milliseconds.
    pub due: u64,
}

/// A rating that a prior process left in the journal.
#[derive(Debug, Clone, Copy, PartialEq, Eq, Structural)]
pub struct RecoveredRow {
    pub owner: u64,
    pub path: u64,
    pub identity: RawIdentity,
    pub rating: u8,
}

/// A rating that the user set, with what the outside says of it.
#[derive(Debug, Clone, Copy, PartialEq, Eq, Structural)]
pub struct NewRating {
    /// Physical path of the RAW file.
    pub path: u64,
    /// Physical owner of the sidecar, or a private key where it is unresolved.
    pub key: u64,
    pub owner_resolved: bool,
    pub identity: RawIdentity,
    pub rating: u8,
    /// Ownership that the journal showed before the write.
    pub predecessor: Option<JournalPredecessor>,
    /// Whether the journal accepted the rating.
    pub recorded: bool,
}

/// Which ownership to read from the journal before a rating is recorded.
#[derive(Debug, Clone, Copy, PartialEq, Eq, Structural)]
pub enum PredecessorRead {
    Owner,
    Global,
}

/// A rating taken out for publication.
#[derive(Debug, Clone, Copy, PartialEq, Eq, Structural)]
pub struct FlushItem {
    pub key: u64,
    pub item: Pending,
}

/// Outside work that a publication needs next.
#[derive(Debug, Clone, Copy, PartialEq, Eq, Structural)]
pub enum FlushAction {
    /// Find the physical path and owner.
    ResolveOwner,
    /// Record the rating in the journal if its ownership is unchanged.
    Journal(JournalPredecessor),
    /// Write the sidecar under the journal's ownership.
    Synchronize,
    /// Write the sidecar without a database.
    WriteSidecar,
}

/// What came of the outside work.
#[derive(Debug, Clone, Copy, PartialEq, Eq, Structural)]
pub enum FlushEvent {
    /// The physical path and owner are known.
    OwnerResolved { path: u64, owner: u64 },
    OwnerUnresolved,
    /// The journal holds the rating.
    Journaled,
    /// The journal holds a newer rating.
    JournalSuperseded,
    JournalFailed,
    /// The sidecar holds the rating.
    Written,
    /// The journal was superseded before the sidecar was written.
    Superseded,
    /// The RAW file was replaced.
    Discarded,
    /// The RAW path now resolves to a different sidecar owner.
    OwnerChanged,
    PublicationFailed,
}

/// How a publication ended.
#[derive(Debug, Clone, Copy, PartialEq, Eq, Structural)]
pub enum FlushEnd {
    Published,
    /// A newer rating made this one obsolete.
    Superseded,
    /// The RAW file was replaced.
    Discarded,
    /// The owner changed; the photo must be rated again.
    Quarantined,
    /// The rating stays pending until a retry.
    Retained,
}

/// The next step of a publication.
#[derive(Debug, Clone, Copy, PartialEq, Eq, Structural)]
pub enum FlushStep {
    Act(FlushItem, FlushAction),
    End(FlushEnd),
}

// ---------------------------------------------------------------------------
// The rules
// ---------------------------------------------------------------------------

/// The state of the service over maps.
#[verifier::ext_equal]
pub struct JournalModel {
    /// Whether a database is the publication authority.
    pub database: bool,
    /// Ratings that wait, by sidecar owner.
    pub pending: Map<u64, Pending>,
    /// Newest sequence accepted for each resolved owner.
    pub latest: Map<u64, u64>,
    pub next_sequence: u64,
}

/// A time later by a delay, as far as the clock goes.
pub open spec fn later(now: u64, delay: u64) -> u64 {
    if now + delay > u64::MAX {
        u64::MAX
    } else {
        (now + delay) as u64
    }
}

/// Milliseconds until a time, zero once it has passed.
pub open spec fn until(due: u64, now: u64) -> u64 {
    if due > now {
        (due - now) as u64
    } else {
        0
    }
}

/// The sequence after another, as far as the numbers go.
pub open spec fn next_of(sequence: u64) -> u64 {
    later(sequence, 1)
}

/// What to read from the journal before recording a rating.
pub open spec fn predecessor_read(database: bool, owner_resolved: bool) -> Option<PredecessorRead> {
    if !database {
        None
    } else if owner_resolved {
        Some(PredecessorRead::Owner)
    } else {
        Some(PredecessorRead::Global)
    }
}

/// Whether a rating that was just set is in the journal.
pub open spec fn is_journaled(database: bool, new: NewRating) -> bool {
    database && new.owner_resolved && new.recorded
}

/// A new rating as it waits.
pub open spec fn accepted_item(model: JournalModel, new: NewRating, due: u64) -> Pending {
    Pending {
        path: new.path,
        owner_resolved: new.owner_resolved,
        sequence: next_of(model.next_sequence),
        identity: new.identity,
        rating: new.rating,
        journaled: is_journaled(model.database, new),
        journal_predecessor: if model.database && !is_journaled(model.database, new) {
            new.predecessor
        } else {
            None
        },
        due,
    }
}

/// The state after a rating was accepted: it replaces whatever waited for the
/// same owner.
pub open spec fn accepted(model: JournalModel, new: NewRating, due: u64) -> JournalModel {
    JournalModel {
        pending: model.pending.insert(new.key, accepted_item(model, new, due)),
        latest: if new.owner_resolved {
            model.latest.insert(new.key, next_of(model.next_sequence))
        } else {
            model.latest
        },
        next_sequence: next_of(model.next_sequence),
        ..model
    }
}

/// Whether a pending rating is up for publication.
pub open spec fn is_due(model: JournalModel, key: u64, now: u64, all: bool) -> bool {
    model.pending.contains_key(key) && (all || model.pending[key].due <= now)
}

/// The state with a rating back in line for a retry.
pub open spec fn retained(model: JournalModel, held: FlushItem, now: u64) -> JournalModel {
    JournalModel {
        pending: model.pending.insert(
            held.key,
            Pending { due: later(now, SIDECAR_RETRY_MS), ..held.item },
        ),
        ..model
    }
}

/// What a held rating needs next: its owner, then its journal entry where there
/// is a database, then its sidecar. A rating whose safe ownership was never
/// established stays pending.
pub open spec fn continued(model: JournalModel, held: FlushItem, now: u64) -> (
    JournalModel,
    FlushStep,
) {
    if !held.item.owner_resolved {
        (model, FlushStep::Act(held, FlushAction::ResolveOwner))
    } else if !model.database {
        (model, FlushStep::Act(held, FlushAction::WriteSidecar))
    } else if held.item.journaled {
        (model, FlushStep::Act(held, FlushAction::Synchronize))
    } else {
        match held.item.journal_predecessor {
            Some(predecessor) => (model, FlushStep::Act(held, FlushAction::Journal(predecessor))),
            None => (retained(model, held, now), FlushStep::End(FlushEnd::Retained)),
        }
    }
}

/// Whether a newer rating than the held one was accepted for an owner.
pub open spec fn is_superseded(model: JournalModel, owner: u64, sequence: u64) -> bool {
    ||| model.latest.contains_key(owner) && model.latest[owner] >= sequence
    ||| model.pending.contains_key(owner) && model.pending[owner].sequence >= sequence
}

/// The state and step after an event.
pub open spec fn stepped(
    model: JournalModel,
    held: FlushItem,
    event: FlushEvent,
    now: u64,
) -> (JournalModel, FlushStep) {
    match event {
        FlushEvent::OwnerResolved { path, owner } => if is_superseded(
            model,
            owner,
            held.item.sequence,
        ) {
            (model, FlushStep::End(FlushEnd::Superseded))
        } else {
            continued(
                JournalModel {
                    pending: model.pending.remove(owner),
                    latest: model.latest.insert(owner, held.item.sequence),
                    ..model
                },
                FlushItem {
                    key: owner,
                    item: Pending { path, owner_resolved: true, ..held.item },
                },
                now,
            )
        },
        FlushEvent::Journaled => continued(
            model,
            FlushItem {
                item: Pending { journaled: true, journal_predecessor: None, ..held.item },
                ..held
            },
            now,
        ),
        FlushEvent::OwnerUnresolved | FlushEvent::JournalFailed | FlushEvent::PublicationFailed => (
            retained(model, held, now),
            FlushStep::End(FlushEnd::Retained),
        ),
        FlushEvent::JournalSuperseded | FlushEvent::Superseded => (
            model,
            FlushStep::End(FlushEnd::Superseded),
        ),
        FlushEvent::Written => (model, FlushStep::End(FlushEnd::Published)),
        FlushEvent::Discarded => (model, FlushStep::End(FlushEnd::Discarded)),
        FlushEvent::OwnerChanged => (model, FlushStep::End(FlushEnd::Quarantined)),
    }
}

/// A recovered rating as it waits: journaled, with its owner known.
pub open spec fn recovered_item(row: RecoveredRow, now: u64) -> Pending {
    Pending {
        path: row.path,
        owner_resolved: true,
        sequence: 0,
        identity: row.identity,
        rating: row.rating,
        journaled: true,
        journal_predecessor: None,
        due: now,
    }
}

/// The state that a prior process left.
pub open spec fn recovered(rows: Seq<RecoveredRow>, now: u64) -> JournalModel
    decreases rows.len(),
{
    if rows.len() == 0 {
        JournalModel {
            database: true,
            pending: Map::empty(),
            latest: Map::empty(),
            next_sequence: 0,
        }
    } else {
        let before = recovered(rows.drop_last(), now);
        let row = rows.last();
        JournalModel {
            pending: before.pending.insert(row.owner, recovered_item(row, now)),
            latest: before.latest.insert(row.owner, 0),
            ..before
        }
    }
}

/// Whether sequences are in order: no number is ahead of the counter, and no
/// rating waits under an owner that accepted nothing as new.
pub open spec fn is_consistent(model: JournalModel) -> bool {
    &&& forall|key: u64| #[trigger]
        model.pending.contains_key(key) ==> model.pending[key].sequence <= model.next_sequence && (
        model.pending[key].owner_resolved ==> model.latest.contains_key(key)
            && model.pending[key].sequence <= model.latest[key])
    &&& forall|key: u64| #[trigger]
        model.latest.contains_key(key) ==> model.latest[key] <= model.next_sequence
}

/// Whether a held rating is in order with the state it was taken from.
pub open spec fn is_held(model: JournalModel, held: FlushItem) -> bool {
    &&& held.item.sequence <= model.next_sequence
    &&& held.item.owner_resolved ==> model.latest.contains_key(held.key) && held.item.sequence
        <= model.latest[held.key]
}

// ---------------------------------------------------------------------------
// The service
// ---------------------------------------------------------------------------

/// Ratings that wait for publication.
pub struct RatingJournal {
    database: bool,
    pending: HashMap<u64, Pending>,
    latest: HashMap<u64, u64>,
    next_sequence: u64,
}

impl View for RatingJournal {
    type V = JournalModel;

    closed spec fn view(&self) -> JournalModel {
        JournalModel {
            database: self.database,
            pending: self.pending@,
            latest: self.latest@,
            next_sequence: self.next_sequence,
        }
    }
}

pub(crate) fn add_delay(now: u64, delay: u64) -> (time: u64)
    ensures
        time == later(now, delay),
{
    if delay > u64::MAX - now {
        u64::MAX
    } else {
        now + delay
    }
}

pub(crate) fn time_until(due: u64, now: u64) -> (left: u64)
    ensures
        left == until(due, now),
{
    if due > now {
        due - now
    } else {
        0
    }
}

fn map_keys(map: &HashMap<u64, Pending>) -> (keys: Vec<u64>)
    ensures
        keys@.no_duplicates(),
        forall|key: u64| #[trigger] keys@.contains(key) <==> map@.contains_key(key),
{
    broadcast use vstd::std_specs::hash::group_hash_axioms;

    let mut keys: Vec<u64> = Vec::new();
    for key in iter: map.keys()
        invariant
            keys@.len() == iter.index(),
            forall|i: int| 0 <= i < keys@.len() ==> (#[trigger] keys@[i]) == *iter.seq()[i],
    {
        keys.push(*key);
    }
    proof {
        let walked = vstd::std_specs::iter::IteratorSpec::remaining(
            &vstd::std_specs::hash::spec_keys_iter(map),
        );
        assert(keys@ =~= walked.unref());
        assert forall|key: u64| #[trigger] keys@.contains(key) <==> map@.contains_key(key) by {
            assert(walked.unref().to_set().contains(key) <==> walked.unref().contains(key));
        }
        assert forall|i: int, j: int| 0 <= i < j < keys@.len() implies keys@[i] != keys@[j] by {
            assert(walked[i] != walked[j]);
        }
    }
    keys
}

impl RatingJournal {
    /// A service without pending ratings.
    pub fn new(database: bool) -> (journal: Self)
        ensures
            journal@ == (JournalModel {
                database,
                pending: Map::empty(),
                latest: Map::empty(),
                next_sequence: 0,
            }),
            is_consistent(journal@),
    {
        let journal = RatingJournal {
            database,
            pending: HashMap::new(),
            latest: HashMap::new(),
            next_sequence: 0,
        };
        assert(journal@ =~= (JournalModel {
            database,
            pending: Map::empty(),
            latest: Map::empty(),
            next_sequence: 0,
        }));
        journal
    }

    /// A service that resumes the ratings a prior process left in the journal.
    pub fn recover(rows: &Vec<RecoveredRow>, now: u64) -> (journal: Self)
        ensures
            journal@ == recovered(rows@, now),
            is_consistent(journal@),
    {
        broadcast use vstd::std_specs::hash::group_hash_axioms;

        let mut journal = Self::new(true);
        let mut i: usize = 0;
        proof {
            assert(rows@.take(0) =~= seq![]);
            assert(journal@ =~= recovered(rows@.take(0), now));
        }
        while i < rows.len()
            invariant
                i <= rows@.len(),
                journal@ == recovered(rows@.take(i as int), now),
                is_consistent(journal@),
            decreases rows@.len() - i,
        {
            broadcast use vstd::std_specs::hash::group_hash_axioms;

            let row = rows[i];
            let item = Pending {
                path: row.path,
                owner_resolved: true,
                sequence: 0,
                identity: row.identity,
                rating: row.rating,
                journaled: true,
                journal_predecessor: None,
                due: now,
            };
            journal.pending.insert(row.owner, item);
            journal.latest.insert(row.owner, 0);
            assert(rows@.take(i + 1).drop_last() =~= rows@.take(i as int));
            i += 1;
            assert(journal@ =~= recovered(rows@.take(i as int), now));
        }
        assert(rows@.take(i as int) =~= rows@);
        journal
    }

    /// Which ownership to read before a rating is recorded.
    pub fn predecessor_to_read(&self, owner_resolved: bool) -> (read: Option<PredecessorRead>)
        ensures
            read == predecessor_read(self@.database, owner_resolved),
    {
        if !self.database {
            None
        } else if owner_resolved {
            Some(PredecessorRead::Owner)
        } else {
            Some(PredecessorRead::Global)
        }
    }

    /// Whether a new rating is to be recorded at once: never under a key that is
    /// not the physical owner.
    pub fn should_record(&self, owner_resolved: bool) -> (record: bool)
        ensures
            record == (self@.database && owner_resolved),
    {
        self.database && owner_resolved
    }

    /// Accepts a rating. Repeated ratings for the same owner coalesce.
    pub fn accept(&mut self, new: NewRating, now: u64, debounce: u64)
        requires
            is_consistent(old(self)@),
        ensures
            final(self)@ == accepted(old(self)@, new, later(now, debounce)),
            is_consistent(final(self)@),
    {
        broadcast use vstd::std_specs::hash::group_hash_axioms;

        self.next_sequence = add_delay(self.next_sequence, 1);
        let journaled: bool = self.database && new.owner_resolved && new.recorded;
        let journal_predecessor: Option<JournalPredecessor> = if self.database && !journaled {
            new.predecessor
        } else {
            None
        };
        if new.owner_resolved {
            self.latest.insert(new.key, self.next_sequence);
        }
        let item = Pending {
            path: new.path,
            owner_resolved: new.owner_resolved,
            sequence: self.next_sequence,
            identity: new.identity,
            rating: new.rating,
            journaled,
            journal_predecessor,
            due: add_delay(now, debounce),
        };
        self.pending.insert(new.key, item);
        assert(self@ =~= accepted(old(self)@, new, later(now, debounce)));
    }

    /// Keys of the ratings that are up for publication.
    pub fn due_keys(&self, now: u64, all: bool) -> (due: Vec<u64>)
        ensures
            due@.no_duplicates(),
            forall|key: u64| #[trigger] due@.contains(key) <==> is_due(self@, key, now, all),
    {
        broadcast use vstd::std_specs::hash::group_hash_axioms;

        let keys = map_keys(&self.pending);
        let mut due: Vec<u64> = Vec::new();
        let mut i: usize = 0;
        while i < keys.len()
            invariant
                i <= keys@.len(),
                keys@.no_duplicates(),
                forall|key: u64| #[trigger]
                    keys@.contains(key) <==> self@.pending.contains_key(key),
                due@.no_duplicates(),
                forall|d: int|
                    0 <= d < due@.len() ==> is_due(self@, #[trigger] due@[d], now, all) && exists|
                        j: int,
                    |
                        0 <= j < i && keys@[j] == due@[d],
                forall|j: int|
                    0 <= j < i && is_due(self@, #[trigger] keys@[j], now, all) ==> due@.contains(
                        keys@[j],
                    ),
            decreases keys@.len() - i,
        {
            broadcast use vstd::std_specs::hash::group_hash_axioms;

            let key: u64 = keys[i];
            let ghost before = due@;
            assert(keys@.contains(key));
            match self.pending.get(&key) {
                Some(item) => if all || item.due <= now {
                    due.push(key);
                    proof {
                        assert(due@[before.len() as int] == key);
                        assert forall|j: int| 0 <= j < i implies due@.contains(keys@[j])
                            || !before.contains(keys@[j]) by {
                            if before.contains(keys@[j]) {
                                let d = choose|d: int| 0 <= d < before.len() && before[d]
                                    == keys@[j];
                                assert(due@[d] == keys@[j]);
                            }
                        }
                    }
                },
                None => {},
            }
            i += 1;
        }
        proof {
            assert forall|key: u64| #[trigger] due@.contains(key) <==> is_due(
                self@,
                key,
                now,
                all,
            ) by {
                if is_due(self@, key, now, all) {
                    assert(keys@.contains(key));
                }
            }
        }
        due
    }

    /// Milliseconds to wait for a command before something is due.
    pub fn wait_ms(&self, now: u64) -> (wait: u64)
        ensures
            self@.pending.dom() =~= Set::empty() ==> wait == IDLE_TIMEOUT_MS,
            forall|key: u64| #[trigger]
                self@.pending.contains_key(key) ==> wait <= until(self@.pending[key].due, now),
            !(self@.pending.dom() =~= Set::empty()) ==> exists|key: u64| #[trigger]
                self@.pending.contains_key(key) && wait == until(self@.pending[key].due, now),
    {
        broadcast use vstd::std_specs::hash::group_hash_axioms;

        let keys = map_keys(&self.pending);
        let mut wait: u64 = IDLE_TIMEOUT_MS;
        let mut i: usize = 0;
        while i < keys.len()
            invariant
                i <= keys@.len(),
                forall|key: u64| #[trigger]
                    keys@.contains(key) <==> self@.pending.contains_key(key),
                i == 0 ==> wait == IDLE_TIMEOUT_MS,
                forall|j: int|
                    0 <= j < i ==> wait <= until(self@.pending[#[trigger] keys@[j]].due, now),
                i > 0 ==> exists|j: int|
                    0 <= j < i && wait == until(self@.pending[#[trigger] keys@[j]].due, now),
            decreases keys@.len() - i,
        {
            broadcast use vstd::std_specs::hash::group_hash_axioms;

            let key: u64 = keys[i];
            assert(keys@.contains(key));
            match self.pending.get(&key) {
                Some(item) => {
                    let left: u64 = time_until(item.due, now);
                    if i == 0 || left < wait {
                        wait = left;
                        assert(wait == until(self@.pending[keys@[i as int]].due, now));
                    }
                },
                None => {},
            }
            i += 1;
        }
        proof {
            if keys@.len() == 0 {
                assert(self@.pending.dom() =~= Set::empty()) by {
                    assert forall|key: u64| !self@.pending.contains_key(key) by {
                        assert(!keys@.contains(key));
                    }
                }
            } else {
                assert(keys@.contains(keys@[0]));
                let j = choose|j: int|
                    0 <= j < i && wait == until(self@.pending[#[trigger] keys@[j]].due, now);
                assert(keys@.contains(keys@[j]));
                assert(self@.pending.contains_key(keys@[j]));
            }
            assert forall|key: u64| #[trigger] self@.pending.contains_key(key) implies wait
                <= until(self@.pending[key].due, now) by {
                assert(keys@.contains(key));
                let j = choose|j: int| 0 <= j < keys@.len() && keys@[j] == key;
                assert(wait <= until(self@.pending[keys@[j]].due, now));
            }
        }
        wait
    }

    /// Whether nothing waits for publication.
    pub fn is_clean(&self) -> (clean: bool)
        ensures
            clean == self@.pending.is_empty(),
    {
        self.pending.is_empty()
    }

    /// Number of ratings that wait.
    pub fn pending_len(&self) -> (len: usize)
        ensures
            len == self@.pending.len(),
    {
        broadcast use vstd::std_specs::hash::group_hash_axioms;

        self.pending.len()
    }

    /// The rating that waits under a key.
    pub fn pending(&self, key: u64) -> (item: Option<Pending>)
        ensures
            item == if self@.pending.contains_key(key) {
                Some(self@.pending[key])
            } else {
                None
            },
    {
        broadcast use vstd::std_specs::hash::group_hash_axioms;

        match self.pending.get(&key) {
            Some(item) => Some(*item),
            None => None,
        }
    }

    /// Takes a rating out of line and says what its publication needs first.
    pub fn begin(&mut self, key: u64, now: u64) -> (step: Option<FlushStep>)
        requires
            is_consistent(old(self)@),
        ensures
            match step {
                Some(step) => old(self)@.pending.contains_key(key) && {
                    let taken = JournalModel {
                        pending: old(self)@.pending.remove(key),
                        ..old(self)@
                    };
                    let held = FlushItem { key, item: old(self)@.pending[key] };
                    &&& is_held(taken, held)
                    &&& (final(self)@, step) == continued(taken, held, now)
                },
                None => !old(self)@.pending.contains_key(key) && final(self)@ == old(self)@,
            },
            is_consistent(final(self)@),
            step matches Some(FlushStep::Act(held, _)) ==> is_held(final(self)@, held),
    {
        broadcast use vstd::std_specs::hash::group_hash_axioms;

        match self.pending.remove(&key) {
            Some(item) => {
                let ghost taken = self@;
                assert(taken =~= (JournalModel {
                    pending: old(self)@.pending.remove(key),
                    ..old(self)@
                }));
                Some(self.proceed(FlushItem { key, item }, now))
            },
            None => {
                assert(self@ =~= old(self)@);
                None
            },
        }
    }

    fn retry_later(&mut self, held: FlushItem, now: u64)
        requires
            is_consistent(old(self)@),
            is_held(old(self)@, held),
        ensures
            final(self)@ == retained(old(self)@, held, now),
            is_consistent(final(self)@),
    {
        broadcast use vstd::std_specs::hash::group_hash_axioms;

        let mut item = held.item;
        item.due = add_delay(now, SIDECAR_RETRY_MS);
        self.pending.insert(held.key, item);
        assert(self@ =~= retained(old(self)@, held, now));
    }

    fn proceed(&mut self, held: FlushItem, now: u64) -> (step: FlushStep)
        requires
            is_consistent(old(self)@),
            is_held(old(self)@, held),
        ensures
            (final(self)@, step) == continued(old(self)@, held, now),
            is_consistent(final(self)@),
            step matches FlushStep::Act(next, _) ==> is_held(final(self)@, next),
    {
        if !held.item.owner_resolved {
            return FlushStep::Act(held, FlushAction::ResolveOwner);
        }
        if !self.database {
            return FlushStep::Act(held, FlushAction::WriteSidecar);
        }
        if held.item.journaled {
            return FlushStep::Act(held, FlushAction::Synchronize);
        }
        match held.item.journal_predecessor {
            Some(predecessor) => FlushStep::Act(held, FlushAction::Journal(predecessor)),
            None => {
                self.retry_later(held, now);
                FlushStep::End(FlushEnd::Retained)
            },
        }
    }

    fn superseded(&self, owner: u64, sequence: u64) -> (superseded: bool)
        ensures
            superseded == is_superseded(self@, owner, sequence),
    {
        broadcast use vstd::std_specs::hash::group_hash_axioms;

        let newer: bool = match self.latest.get(&owner) {
            Some(latest) => *latest >= sequence,
            None => false,
        };
        if newer {
            return true;
        }
        match self.pending.get(&owner) {
            Some(other) => other.sequence >= sequence,
            None => false,
        }
    }

    /// Takes the event that outside work led to and says what comes next.
    pub fn step(&mut self, held: FlushItem, event: FlushEvent, now: u64) -> (step: FlushStep)
        requires
            is_consistent(old(self)@),
            is_held(old(self)@, held),
        ensures
            (final(self)@, step) == stepped(old(self)@, held, event, now),
            is_consistent(final(self)@),
            step matches FlushStep::Act(next, _) ==> is_held(final(self)@, next),
    {
        broadcast use vstd::std_specs::hash::group_hash_axioms;

        match event {
            FlushEvent::OwnerResolved { path, owner } => {
                if self.superseded(owner, held.item.sequence) {
                    return FlushStep::End(FlushEnd::Superseded);
                }
                self.pending.remove(&owner);
                self.latest.insert(owner, held.item.sequence);
                let mut item = held.item;
                item.path = path;
                item.owner_resolved = true;
                let ghost moved = JournalModel {
                    pending: old(self)@.pending.remove(owner),
                    latest: old(self)@.latest.insert(owner, held.item.sequence),
                    ..old(self)@
                };
                assert(self@ =~= moved);
                self.proceed(FlushItem { key: owner, item }, now)
            },
            FlushEvent::Journaled => {
                let mut item = held.item;
                item.journaled = true;
                item.journal_predecessor = None;
                self.proceed(FlushItem { key: held.key, item }, now)
            },
            FlushEvent::OwnerUnresolved
            | FlushEvent::JournalFailed
            | FlushEvent::PublicationFailed => {
                self.retry_later(held, now);
                FlushStep::End(FlushEnd::Retained)
            },
            FlushEvent::JournalSuperseded | FlushEvent::Superseded => FlushStep::End(
                FlushEnd::Superseded,
            ),
            FlushEvent::Written => FlushStep::End(FlushEnd::Published),
            FlushEvent::Discarded => FlushStep::End(FlushEnd::Discarded),
            FlushEvent::OwnerChanged => FlushStep::End(FlushEnd::Quarantined),
        }
    }
}

// ---------------------------------------------------------------------------
// Laws
// ---------------------------------------------------------------------------

/// Nothing is journaled or written under a key that is not the physical owner.
pub proof fn law_only_resolved_owners_are_published(
    model: JournalModel,
    held: FlushItem,
    event: FlushEvent,
    now: u64,
)
    ensures
        stepped(model, held, event, now).1 matches FlushStep::Act(next, action) ==> action
            is ResolveOwner || next.item.owner_resolved,
        continued(model, held, now).1 matches FlushStep::Act(next, action) ==> action
            is ResolveOwner || next.item.owner_resolved,
{
}

/// With a database, a sidecar is written only for a journaled rating, and never
/// without the database.
pub proof fn law_publication_waits_for_the_journal(
    model: JournalModel,
    held: FlushItem,
    event: FlushEvent,
    now: u64,
)
    requires
        model.database,
    ensures
        stepped(model, held, event, now).1 matches FlushStep::Act(next, action) ==> !(action
            is WriteSidecar) && (action is Synchronize ==> next.item.journaled),
        continued(model, held, now).1 matches FlushStep::Act(next, action) ==> !(action
            is WriteSidecar) && (action is Synchronize ==> next.item.journaled),
{
}

/// A rating whose publication failed keeps waiting, and is due again after the
/// retry delay.
pub proof fn law_failed_publication_is_retained(
    model: JournalModel,
    held: FlushItem,
    event: FlushEvent,
    now: u64,
)
    requires
        event is OwnerUnresolved || event is JournalFailed || event is PublicationFailed,
    ensures
        ({
            let (after, step) = stepped(model, held, event, now);
            &&& step == FlushStep::End(FlushEnd::Retained)
            &&& after.pending.contains_key(held.key)
            &&& after.pending[held.key] == (Pending {
                due: later(now, SIDECAR_RETRY_MS),
                ..held.item
            })
            &&& !after.pending.is_empty()
        }),
{
    let after = stepped(model, held, event, now).0;
    assert(after.pending.contains_key(held.key));
}

/// A rating whose owner turns out to have accepted something at least as new is
/// dropped, and changes nothing.
pub proof fn law_superseded_rating_is_dropped(
    model: JournalModel,
    held: FlushItem,
    path: u64,
    owner: u64,
    now: u64,
)
    requires
        model.latest.contains_key(owner),
        model.latest[owner] >= held.item.sequence,
    ensures
        stepped(model, held, FlushEvent::OwnerResolved { path, owner }, now) == (
            model,
            FlushStep::End(FlushEnd::Superseded),
        ),
{
}

/// No step loses track of what an owner accepted: the newest sequence of an
/// owner never goes back.
pub proof fn law_sequences_never_go_back(
    model: JournalModel,
    held: FlushItem,
    event: FlushEvent,
    now: u64,
    owner: u64,
)
    requires
        model.latest.contains_key(owner),
    ensures
        stepped(model, held, event, now).0.latest.contains_key(owner),
        stepped(model, held, event, now).0.latest[owner] >= model.latest[owner],
{
}

/// A rating accepted for an owner supersedes every rating taken out before it,
/// as long as the counter has not run out.
pub proof fn law_newer_rating_supersedes_older_work(
    model: JournalModel,
    new: NewRating,
    due: u64,
    held: FlushItem,
    path: u64,
    now: u64,
)
    requires
        is_held(model, held),
        new.owner_resolved,
    ensures
        stepped(
            accepted(model, new, due),
            held,
            FlushEvent::OwnerResolved { path, owner: new.key },
            now,
        ).1 == FlushStep::End(FlushEnd::Superseded),
{
}

/// Ratings of one owner coalesce: after a new rating, only that one waits there.
pub proof fn law_ratings_coalesce(model: JournalModel, new: NewRating, due: u64, key: u64)
    ensures
        accepted(model, new, due).pending[new.key].rating == new.rating,
        key != new.key ==> (accepted(model, new, due).pending.contains_key(key)
            <==> model.pending.contains_key(key)),
        key != new.key && model.pending.contains_key(key) ==> accepted(
            model,
            new,
            due,
        ).pending[key] == model.pending[key],
{
}

/// A rating whose owner is unresolved is never journaled when it is set, and
/// does not count as accepted for any owner.
pub proof fn law_unresolved_rating_claims_no_owner(model: JournalModel, new: NewRating, due: u64)
    requires
        !new.owner_resolved,
    ensures
        !accepted(model, new, due).pending[new.key].journaled,
        accepted(model, new, due).latest == model.latest,
{
}

proof fn lemma_recovered_database(rows: Seq<RecoveredRow>, now: u64)
    ensures
        recovered(rows, now).database,
    decreases rows.len(),
{
    if rows.len() > 0 {
        lemma_recovered_database(rows.drop_last(), now);
    }
}

/// What a prior process left is journaled and resolved, so its publication
/// starts with the sidecar.
pub proof fn law_recovered_ratings_resume_at_the_sidecar(
    rows: Seq<RecoveredRow>,
    now: u64,
    key: u64,
)
    requires
        recovered(rows, now).pending.contains_key(key),
    ensures
        ({
            let model = recovered(rows, now);
            let held = FlushItem { key, item: model.pending[key] };
            continued(model, held, now) == (model, FlushStep::Act(held, FlushAction::Synchronize))
        }),
    decreases rows.len(),
{
    lemma_recovered_database(rows, now);
    if rows.len() > 0 && key != rows.last().owner {
        law_recovered_ratings_resume_at_the_sidecar(rows.drop_last(), now, key);
    }
}

// ---------------------------------------------------------------------------
// What a publication goes through
// ---------------------------------------------------------------------------

/// Whether a time is another one and a delay, as far as the clock goes.
pub open spec fn comes_after(time: u64, now: u64, delay: int) -> bool {
    time == if now + delay <= 18_446_744_073_709_551_615 {
        now + delay
    } else {
        18_446_744_073_709_551_615
    }
}

/// Whether two states hold the same ratings in line, but for one key.
pub open spec fn same_but_for(before: JournalModel, after: JournalModel, key: u64) -> bool {
    forall|other: u64|
        other != key ==> (#[trigger] after.pending.contains_key(other)
            <==> before.pending.contains_key(other)) && (before.pending.contains_key(other)
            ==> after.pending[other] == before.pending[other])
}

/// Whether a held rating is back in line for a retry five seconds later, as it was
/// held, and nothing else changed.
pub open spec fn waits_again(
    before: JournalModel,
    after: JournalModel,
    held: FlushItem,
    now: u64,
) -> bool {
    &&& after.database == before.database && after.latest == before.latest && after.next_sequence
        == before.next_sequence
    &&& same_but_for(before, after, held.key)
    &&& after.pending.contains_key(held.key)
    &&& {
        let item = after.pending[held.key];
        &&& item.path == held.item.path && item.owner_resolved == held.item.owner_resolved
        &&& item.sequence == held.item.sequence && item.identity == held.item.identity
        &&& item.rating == held.item.rating && item.journaled == held.item.journaled
        &&& item.journal_predecessor == held.item.journal_predecessor
        &&& comes_after(item.due, now, 5_000)
    }
}

/// Whether a step is what a held rating needs: first its owner, then, with a database,
/// a journal entry under the ownership that it was accepted with, then its sidecar.
/// One that was accepted with none stays in line.
pub open spec fn goes_on(
    before: JournalModel,
    after: JournalModel,
    held: FlushItem,
    now: u64,
    step: FlushStep,
) -> bool {
    let item = held.item;
    if !item.owner_resolved {
        step == FlushStep::Act(held, FlushAction::ResolveOwner) && after == before
    } else if !before.database {
        step == FlushStep::Act(held, FlushAction::WriteSidecar) && after == before
    } else if item.journaled {
        step == FlushStep::Act(held, FlushAction::Synchronize) && after == before
    } else if item.journal_predecessor is Some {
        step == FlushStep::Act(held, FlushAction::Journal(item.journal_predecessor->0)) && after
            == before
    } else {
        step == FlushStep::End(FlushEnd::Retained) && waits_again(before, after, held, now)
    }
}

/// An accepted rating waits under its key in place of any other one, with the next
/// sequence, until the debounce has passed. It counts as journaled exactly where a
/// database recorded it under its owner; else, with a database, it keeps the ownership
/// that was read. Only a resolved owner learns of the sequence, and no other rating
/// is touched.
pub proof fn law_accepted_ratings_wait_under_their_key(
    journal: &mut RatingJournal,
    new: NewRating,
    now: u64,
    debounce: u64,
)
    requires
        is_consistent(old(journal)@),
        call_ensures(RatingJournal::accept, (journal, new, now, debounce), ()),
    ensures
        ({
            let before = old(journal)@;
            let after = final(journal)@;
            let item = after.pending[new.key];
            &&& after.database == before.database
            &&& comes_after(after.next_sequence, before.next_sequence, 1)
            &&& after.pending.contains_key(new.key)
            &&& item.path == new.path && item.owner_resolved == new.owner_resolved
            &&& item.identity == new.identity && item.rating == new.rating
            &&& item.sequence == after.next_sequence
            &&& comes_after(item.due, now, debounce as int)
            &&& item.journaled <==> before.database && new.owner_resolved && new.recorded
            &&& item.journal_predecessor == if before.database && !item.journaled {
                new.predecessor
            } else {
                None
            }
            &&& same_but_for(before, after, new.key)
            &&& !new.owner_resolved ==> after.latest == before.latest
            &&& new.owner_resolved ==> after.latest.contains_key(new.key) && after.latest[new.key]
                == after.next_sequence
            &&& forall|other: u64|
                other != new.key ==> (#[trigger] after.latest.contains_key(other)
                    <==> before.latest.contains_key(other)) && (before.latest.contains_key(other)
                    ==> after.latest[other] == before.latest[other])
        }),
{
}

/// A publication takes its rating out of line, if it waits there, and goes on with
/// what the rating needs.
pub proof fn law_publications_begin_with_what_is_needed(
    journal: &mut RatingJournal,
    key: u64,
    now: u64,
    step: Option<FlushStep>,
) -> (taken: JournalModel)
    requires
        is_consistent(old(journal)@),
        call_ensures(RatingJournal::begin, (journal, key, now), step),
    ensures
        step is Some <==> old(journal)@.pending.contains_key(key),
        step is None ==> final(journal)@ == old(journal)@,
        step matches Some(step) ==> {
            &&& !taken.pending.contains_key(key)
            &&& same_but_for(old(journal)@, taken, key)
            &&& taken.database == old(journal)@.database
            &&& taken.latest == old(journal)@.latest
            &&& taken.next_sequence == old(journal)@.next_sequence
            &&& goes_on(
                taken,
                final(journal)@,
                FlushItem { key, item: old(journal)@.pending[key] },
                now,
                step,
            )
        },
{
    JournalModel { pending: old(journal)@.pending.remove(key), ..old(journal)@ }
}

/// What comes of the outside work on a held rating. An owner that accepted something at
/// least as new, or for which something at least as new waits, supersedes it; any
/// other owner takes it over, with its path and sequence, and the publication goes on
/// from there. A journaled rating goes on to its sidecar. A failure puts it back in
/// line. Everything else ends the publication and changes nothing.
pub proof fn law_events_lead_to_their_steps(
    journal: &mut RatingJournal,
    held: FlushItem,
    event: FlushEvent,
    now: u64,
    step: FlushStep,
) -> (moved: JournalModel)
    requires
        is_consistent(old(journal)@),
        is_held(old(journal)@, held),
        call_ensures(RatingJournal::step, (journal, held, event, now), step),
    ensures
        ({
            let before = old(journal)@;
            let after = final(journal)@;
            &&& event matches FlushEvent::OwnerResolved { path, owner } ==> {
                let newer = (before.latest.contains_key(owner) && before.latest[owner]
                    >= held.item.sequence) || (before.pending.contains_key(owner)
                    && before.pending[owner].sequence >= held.item.sequence);
                &&& newer ==> step == FlushStep::End(FlushEnd::Superseded) && after == before
                &&& !newer ==> {
                    &&& !moved.pending.contains_key(owner)
                    &&& same_but_for(before, moved, owner)
                    &&& moved.database == before.database
                    &&& moved.next_sequence == before.next_sequence
                    &&& moved.latest.contains_key(owner) && moved.latest[owner]
                        == held.item.sequence
                    &&& forall|other: u64|
                        other != owner ==> (#[trigger] moved.latest.contains_key(other)
                            <==> before.latest.contains_key(other)) && (
                        before.latest.contains_key(other) ==> moved.latest[other]
                            == before.latest[other])
                    &&& goes_on(
                        moved,
                        after,
                        FlushItem {
                            key: owner,
                            item: Pending {
                                path,
                                owner_resolved: true,
                                sequence: held.item.sequence,
                                identity: held.item.identity,
                                rating: held.item.rating,
                                journaled: held.item.journaled,
                                journal_predecessor: held.item.journal_predecessor,
                                due: held.item.due,
                            },
                        },
                        now,
                        step,
                    )
                }
            }
            &&& event == FlushEvent::Journaled && held.item.owner_resolved && before.database ==> {
                &&& after == before
                &&& step matches FlushStep::Act(next, action) && action == FlushAction::Synchronize
                    && next.key == held.key && next.item.journaled && next.item.rating
                    == held.item.rating && next.item.path == held.item.path && next.item.identity
                    == held.item.identity && next.item.sequence == held.item.sequence
                    && next.item.journal_predecessor is None
            }
            &&& event == FlushEvent::OwnerUnresolved || event == FlushEvent::JournalFailed || event
                == FlushEvent::PublicationFailed ==> step == FlushStep::End(FlushEnd::Retained)
                && waits_again(before, after, held, now)
            &&& event == FlushEvent::JournalSuperseded || event == FlushEvent::Superseded ==> step
                == FlushStep::End(FlushEnd::Superseded) && after == before
            &&& event == FlushEvent::Written ==> step == FlushStep::End(FlushEnd::Published)
                && after == before
            &&& event == FlushEvent::Discarded ==> step == FlushStep::End(FlushEnd::Discarded)
                && after == before
            &&& event == FlushEvent::OwnerChanged ==> step == FlushStep::End(FlushEnd::Quarantined)
                && after == before
        }),
{
    match event {
        FlushEvent::OwnerResolved { path, owner } => JournalModel {
            pending: old(journal)@.pending.remove(owner),
            latest: old(journal)@.latest.insert(owner, held.item.sequence),
            ..old(journal)@
        },
        _ => old(journal)@,
    }
}

/// A rating is due exactly where it waits and its time has come, or all are asked for,
/// and is listed once. The service waits until the first of them is due, and an hour
/// where none waits.
pub proof fn law_ratings_are_due_when_their_time_has_come(
    journal: &RatingJournal,
    now: u64,
    all: bool,
    due: Vec<u64>,
    wait: u64,
    key: u64,
)
    requires
        call_ensures(RatingJournal::due_keys, (journal, now, all), due),
        call_ensures(RatingJournal::wait_ms, (journal, now), wait),
    ensures
        due@.contains(key) <==> journal@.pending.contains_key(key) && (all
            || journal@.pending[key].due <= now),
        forall|i: int, j: int| 0 <= i < j < due@.len() ==> due@[i] != due@[j],
        journal@.pending.contains_key(key) ==> now + wait <= if journal@.pending[key].due > now {
            journal@.pending[key].due
        } else {
            now
        },
        (exists|other: u64| journal@.pending.contains_key(other)) ==> exists|other: u64|
            #[trigger] journal@.pending.contains_key(other) && now + wait == if
            journal@.pending[other].due > now {
                journal@.pending[other].due
            } else {
                now
            },
        (forall|other: u64| !journal@.pending.contains_key(other)) ==> wait == 60 * 60 * 1_000,
{
    if forall|other: u64| !journal@.pending.contains_key(other) {
        assert(journal@.pending.dom() =~= Set::empty());
    } else {
        let other = choose|other: u64| journal@.pending.contains_key(other);
        assert(journal@.pending.dom().contains(other));
        let first = choose|key: u64| #[trigger]
            journal@.pending.contains_key(key) && wait == until(journal@.pending[key].due, now);
        assert(journal@.pending.contains_key(first));
    }
}

/// What the service tells of itself: which ownership to read before a rating is
/// recorded, whether to record it at once, and what waits.
pub proof fn law_the_service_tells_what_waits(
    journal: &RatingJournal,
    resolved: bool,
    key: u64,
    read: Option<PredecessorRead>,
    record: bool,
    clean: bool,
    item: Option<Pending>,
    database: bool,
    fresh: RatingJournal,
)
    requires
        call_ensures(RatingJournal::predecessor_to_read, (journal, resolved), read),
        call_ensures(RatingJournal::should_record, (journal, resolved), record),
        call_ensures(RatingJournal::is_clean, (journal,), clean),
        call_ensures(RatingJournal::pending, (journal, key), item),
        call_ensures(RatingJournal::new, (database,), fresh),
    ensures
        read is None <==> !journal@.database,
        journal@.database && resolved ==> read == Some(PredecessorRead::Owner),
        journal@.database && !resolved ==> read == Some(PredecessorRead::Global),
        record <==> journal@.database && resolved,
        clean ==> !journal@.pending.contains_key(key),
        !clean ==> exists|other: u64| journal@.pending.contains_key(other),
        item is Some <==> journal@.pending.contains_key(key),
        item matches Some(item) ==> item == journal@.pending[key],
        fresh@.database == database,
        !fresh@.pending.contains_key(key),
        !fresh@.latest.contains_key(key),
        fresh@.next_sequence == 0,
{
    if !clean {
        assert(exists|other: u64| journal@.pending.dom().contains(other)) by {
            if forall|other: u64| !journal@.pending.dom().contains(other) {
                assert(journal@.pending.dom() =~= Set::empty());
                assert(journal@.pending =~= Map::empty());
            }
        }
        let other = choose|other: u64| journal@.pending.dom().contains(other);
        assert(journal@.pending.contains_key(other));
    }
}

proof fn lemma_recovered_rows(rows: Seq<RecoveredRow>, now: u64, i: int)
    requires
        0 <= i < rows.len(),
        forall|j: int| i < j < rows.len() ==> (#[trigger] rows[j]).owner != rows[i].owner,
    ensures
        recovered(rows, now).pending.contains_key(rows[i].owner),
        recovered(rows, now).latest.contains_key(rows[i].owner),
        recovered(rows, now).latest[rows[i].owner] == 0,
        recovered(rows, now).pending[rows[i].owner] == recovered_item(rows[i], now),
    decreases rows.len(),
{
    if i < rows.len() - 1 {
        let rest = rows.drop_last();
        assert(rows[rows.len() - 1].owner != rows[i].owner);
        assert forall|j: int| i < j < rest.len() implies (#[trigger] rest[j]).owner
            != rest[i].owner by {
            assert(rows[j].owner != rows[i].owner);
        }
        lemma_recovered_rows(rest, now, i);
    }
}

proof fn lemma_recovered_keys(rows: Seq<RecoveredRow>, now: u64, key: u64)
    ensures
        recovered(rows, now).next_sequence == 0,
        recovered(rows, now).database,
        recovered(rows, now).pending.contains_key(key) ==> exists|i: int|
            0 <= i < rows.len() && (#[trigger] rows[i]).owner == key,
        recovered(rows, now).latest.contains_key(key) ==> exists|i: int|
            0 <= i < rows.len() && (#[trigger] rows[i]).owner == key,
    decreases rows.len(),
{
    if rows.len() > 0 {
        let rest = rows.drop_last();
        lemma_recovered_keys(rest, now, key);
        assert(rows[rows.len() - 1] == rows.last());
        if rows.last().owner != key && (recovered(rest, now).pending.contains_key(key) || recovered(
            rest,
            now,
        ).latest.contains_key(key)) {
            let i = choose|i: int| 0 <= i < rest.len() && (#[trigger] rest[i]).owner == key;
            assert(rows[i].owner == key);
        }
    }
}

/// A recovered service holds the last row of every owner that has one, journaled and
/// due at once, and nothing else.
pub proof fn law_recovery_resumes_the_last_row_of_each_owner(
    rows: &Vec<RecoveredRow>,
    now: u64,
    journal: RatingJournal,
    key: u64,
    i: int,
)
    requires
        call_ensures(RatingJournal::recover, (rows, now), journal),
    ensures
        journal@.database,
        journal@.next_sequence == 0,
        journal@.pending.contains_key(key) ==> exists|k: int|
            0 <= k < rows@.len() && (#[trigger] rows@[k]).owner == key,
        journal@.latest.contains_key(key) ==> exists|k: int|
            0 <= k < rows@.len() && (#[trigger] rows@[k]).owner == key,
        0 <= i < rows@.len() && (forall|j: int|
            i < j < rows@.len() ==> (#[trigger] rows@[j]).owner != rows@[i].owner) ==> {
            let row = rows@[i];
            let item = journal@.pending[row.owner];
            &&& journal@.pending.contains_key(row.owner)
            &&& journal@.latest.contains_key(row.owner) && journal@.latest[row.owner] == 0
            &&& item.path == row.path && item.identity == row.identity && item.rating == row.rating
            &&& item.owner_resolved && item.journaled && item.journal_predecessor is None
            &&& item.sequence == 0 && item.due == now
        },
{
    lemma_recovered_keys(rows@, now, key);
    if 0 <= i < rows@.len() && (forall|j: int|
        i < j < rows@.len() ==> (#[trigger] rows@[j]).owner != rows@[i].owner) {
        lemma_recovered_rows(rows@, now, i);
    }
}

} // verus!
