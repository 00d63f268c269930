//! Ratings across the journal, sidecars and database rows.

use std::cell::Cell;
use std::collections::HashMap;

use viewr_core::library::journal::{
    FlushAction, FlushEnd, FlushEvent, FlushStep, JournalPredecessor, NewRating, PredecessorRead,
    RatingJournal, RecoveredRow, SHUTDOWN_FLUSH_ATTEMPTS, SIDECAR_DEBOUNCE_MS, SIDECAR_RETRY_MS,
};
use viewr_core::library::ratings::{
    benchmark_load_ratings_legacy_full_scan, load_ratings, load_ratings_with_owners,
    rating_owner_keys, try_load_ratings_with_owners, OwnedRow, RatedEntry, RatingRow,
    RatingSnapshot, RawIdentity, Sidecar,
};
use viewr_core::library::worker::{
    check_raw_identity, next_shutdown_step, next_startup_step, pending_sidecar_write,
    retry_shutdown_flush, sidecar_outcome, work_for, Command, DatabaseWait, Library,
    PendingSidecarWrite, RatingRequest, Received, ShutdownStep, SidecarWriteError, StartupStep, WaitStep, Work, DB_OPEN_LOCK_RETRY_MS,
    DB_OPEN_OTHER_RETRY_MS,
};

// ---------------------------------------------------------------------------
// Loading
// ---------------------------------------------------------------------------

const NO_SIDECAR: Sidecar = Sidecar {
    mtime_ns: None,
    rating: None,
};

fn identity(path: u64) -> RawIdentity {
    RawIdentity {
        size: 3,
        mtime_ns: path as i64,
    }
}

/// A photo at a path whose sidecar has an owner.
fn entry(path: u64, owner: u64) -> RatedEntry {
    RatedEntry {
        path,
        identity: identity(path),
        owner: Some(owner),
        owner_token: Some(owner),
        sidecar: NO_SIDECAR,
    }
}

fn with_sidecar(entry: RatedEntry, mtime_ns: i64, rating: Option<u8>) -> RatedEntry {
    RatedEntry {
        sidecar: Sidecar {
            mtime_ns: Some(mtime_ns),
            rating,
        },
        ..entry
    }
}

/// A clean row without a stored owner, at the entry's own path.
fn clean_row(entry: RatedEntry, rating: Option<u8>, sidecar_mtime_ns: i64) -> RatingRow {
    RatingRow {
        path: entry.path,
        identity: entry.identity,
        rating,
        sidecar_mtime_ns,
        sidecar_dirty: false,
        sidecar_owner: None,
        physical: true,
        current_owner: entry.owner,
        token: entry.owner_token,
        current_identity: Some(entry.identity),
        owner_identity: Some(entry.identity),
    }
}

fn dirty_row(entry: RatedEntry, rating: u8) -> RatingRow {
    RatingRow {
        sidecar_dirty: true,
        ..clean_row(entry, Some(rating), 0)
    }
}

fn owned(row: RatingRow, owner: u64) -> RatingRow {
    RatingRow {
        sidecar_owner: Some(owner),
        ..row
    }
}

/// The snapshot of a database: rows that store an owner are found by it too.
fn snapshot(rows: Vec<RatingRow>) -> RatingSnapshot {
    let by_owner = rows
        .iter()
        .filter_map(|row| row.sidecar_owner.map(|owner| OwnedRow { owner, row: *row }))
        .collect();
    RatingSnapshot {
        by_path: rows,
        by_owner,
        legacy_owners_require_derivation: false,
    }
}

/// The snapshot of a database whose schema predates stored owners.
fn legacy_snapshot(rows: Vec<RatingRow>) -> RatingSnapshot {
    RatingSnapshot {
        by_path: rows,
        by_owner: Vec::new(),
        legacy_owners_require_derivation: true,
    }
}

fn loaded(entries: &[RatedEntry], snapshot: RatingSnapshot) -> HashMap<usize, u8> {
    load_ratings::<String>(entries, Some(Ok(snapshot)))
}

#[test]
fn load_ratings_resolves_sidecar_database_and_missing_precedence() {
    let entries = [
        with_sidecar(entry(1, 101), 500, Some(5)),
        with_sidecar(entry(2, 102), 500, Some(4)),
        entry(3, 103),
        with_sidecar(entry(4, 104), 500, Some(0)),
        with_sidecar(entry(5, 105), 500, None),
        entry(6, 106),
    ];
    let rows = vec![
        // Equality is the boundary at which the sidecar wins over the DB.
        clean_row(entries[0], Some(2), 500),
        clean_row(entries[1], Some(1), 501),
        clean_row(entries[2], Some(3), 0),
        clean_row(entries[4], Some(2), 500),
    ];

    assert_eq!(
        loaded(&entries, snapshot(rows)),
        HashMap::from([(0, 5), (1, 1), (2, 3), (3, 0), (4, 2)])
    );
}

#[test]
fn load_ratings_reads_a_legacy_dirty_journal_before_background_migration() {
    let entry = with_sidecar(entry(1, 101), 500, Some(1));
    let row = RatingRow {
        sidecar_mtime_ns: 500,
        ..dirty_row(entry, 5)
    };

    assert_eq!(
        loaded(&[entry], legacy_snapshot(vec![row])),
        HashMap::from([(0, 5)]),
        "an accepted but unpublished legacy rating must beat older XMP"
    );
}

#[test]
fn fallible_rating_load_surfaces_snapshot_conversion_errors() {
    let entry = with_sidecar(entry(1, 101), 500, Some(2));
    let failed = || Some(Err::<RatingSnapshot, String>("invalid rating".to_owned()));

    assert_eq!(
        try_load_ratings_with_owners(&[entry], failed()).unwrap_err(),
        "invalid rating"
    );
    assert_eq!(
        load_ratings_with_owners(&[entry], failed()),
        (HashMap::from([(0, 2)]), vec![Some(101)])
    );
}

#[test]
fn load_ratings_ignores_database_rows_for_a_replaced_raw() {
    let entry = with_sidecar(entry(1, 101), 500, Some(2));
    let replaced = |entry: RatedEntry| {
        let row = owned(dirty_row(entry, 5), 101);
        snapshot(vec![RatingRow {
            identity: RawIdentity {
                size: entry.identity.size + 1,
                ..entry.identity
            },
            ..row
        }])
    };

    // A dirty rating for an older file at the same path must neither
    // suppress nor replace the current file's sidecar rating.
    assert_eq!(loaded(&[entry], replaced(entry)), HashMap::from([(0, 2)]));

    let bare = RatedEntry {
        sidecar: NO_SIDECAR,
        ..entry
    };
    assert!(loaded(&[bare], replaced(bare)).is_empty());
}

#[test]
fn unowned_dirty_row_of_a_replaced_raw_neither_replaces_nor_suppresses_the_sidecar() {
    let entry = with_sidecar(entry(1, 101), 500, Some(2));
    let replaced = |entry: RatedEntry| RatingRow {
        identity: RawIdentity {
            size: entry.identity.size + 1,
            ..entry.identity
        },
        ..dirty_row(entry, 5)
    };
    let bare = RatedEntry {
        sidecar: NO_SIDECAR,
        ..entry
    };

    assert_eq!(
        loaded(&[entry], snapshot(vec![replaced(entry)])),
        HashMap::from([(0, 2)])
    );
    assert!(loaded(&[bare], snapshot(vec![replaced(bare)])).is_empty());

    // Two rows under one owner, one of them unpublished and current: ambiguous.
    let sibling = with_sidecar(
        RatedEntry {
            path: 2,
            identity: identity(2),
            ..entry
        },
        500,
        Some(2),
    );
    assert!(loaded(
        &[entry, sibling],
        snapshot(vec![replaced(entry), dirty_row(sibling, 4)])
    )
    .is_empty());
}

#[test]
fn clean_owned_database_rating_applies_to_every_raw_sharing_the_sidecar() {
    let (arw, dng) = (entry(1, 101), entry(2, 101));
    let rows = vec![owned(clean_row(arw, Some(4), 0), 101)];

    assert_eq!(
        loaded(&[arw, dng], snapshot(rows)),
        HashMap::from([(0, 4), (1, 4)])
    );
}

#[test]
fn owned_dirty_rating_overrides_a_leftover_clean_legacy_alias() {
    let (arw, dng) = (entry(1, 101), entry(2, 101));
    let rows = vec![
        clean_row(dng, Some(2), 0),
        owned(dirty_row(arw, 5), 101),
    ];

    assert_eq!(
        loaded(&[arw, dng], snapshot(rows)),
        HashMap::from([(0, 5), (1, 5)])
    );
}

#[test]
fn owned_clean_rating_overrides_a_conflicting_clean_legacy_alias() {
    let (arw, dng) = (entry(1, 101), entry(2, 101));
    let rows = vec![
        clean_row(dng, Some(2), 0),
        owned(clean_row(arw, Some(5), 0), 101),
    ];

    assert_eq!(
        loaded(&[arw, dng], snapshot(rows)),
        HashMap::from([(0, 5), (1, 5)])
    );
}

#[test]
fn singleton_legacy_clean_rating_applies_to_its_sidecar_owner_group() {
    let (arw, dng) = (entry(1, 101), entry(2, 101));
    let rows = vec![clean_row(arw, Some(3), 0)];

    assert_eq!(
        loaded(&[arw, dng], snapshot(rows)),
        HashMap::from([(0, 3), (1, 3)])
    );
}

#[test]
fn conflicting_legacy_clean_aliases_fail_closed_without_a_sidecar() {
    let (arw, dng) = (entry(1, 101), entry(2, 101));
    let rows = vec![clean_row(arw, Some(2), 0), clean_row(dng, Some(5), 0)];

    assert!(loaded(&[arw, dng], snapshot(rows)).is_empty());
}

#[test]
fn unrequested_legacy_clean_alias_conflicts_fail_closed_for_both_schemas() {
    let (arw, dng) = (entry(1, 101), entry(2, 101));
    // The sibling's row is spelled through an alias of the directory.
    let alias = RatingRow {
        path: 20,
        physical: false,
        ..clean_row(dng, Some(5), 0)
    };
    for owner_aware in [false, true] {
        let rows = vec![
            if owner_aware {
                owned(clean_row(arw, Some(2), 0), 101)
            } else {
                clean_row(arw, Some(2), 0)
            },
            if owner_aware { owned(alias, 120) } else { alias },
        ];
        assert!(
            loaded(&[arw], legacy_snapshot(rows)).is_empty(),
            "schema owner_aware={owner_aware} must include the unrequested alias"
        );
    }
}

#[test]
fn legacy_dirty_symlink_spelling_uses_only_the_current_sidecar_before_migration() {
    let entry = with_sidecar(entry(1, 101), 500, Some(1));
    let alias = RatingRow {
        path: 10,
        physical: false,
        ..dirty_row(entry, 5)
    };

    assert_eq!(
        loaded(&[entry], legacy_snapshot(vec![alias])),
        HashMap::from([(0, 1)]),
        "an ownerless alias spelling must not override the current sidecar"
    );
}

#[test]
fn ambiguous_legacy_alias_history_suppresses_same_name_dirty_fallbacks() {
    // Both photos have the same name and identity.
    let token = Some(7);
    let first = RatedEntry {
        owner_token: token,
        ..with_sidecar(entry(1, 101), 500, Some(2))
    };
    let second = RatedEntry {
        owner_token: token,
        identity: first.identity,
        ..entry(2, 102)
    };
    let alias = RatingRow {
        path: 10,
        physical: false,
        current_owner: second.owner,
        ..dirty_row(first, 5)
    };

    assert_eq!(
        loaded(&[first, second], legacy_snapshot(vec![dirty_row(first, 1), alias])),
        HashMap::from([(0, 2)]),
        "unordered legacy path histories must not override either current sidecar owner"
    );
}

#[test]
fn removed_clean_legacy_alias_suppresses_same_name_dirty_fallback() {
    let dirty = with_sidecar(entry(1, 101), 500, Some(2));
    let clean = entry(2, 101);
    let alias = RatingRow {
        path: 20,
        physical: false,
        current_owner: None,
        current_identity: None,
        ..clean_row(clean, Some(5), 10)
    };

    assert_eq!(
        loaded(&[dirty], legacy_snapshot(vec![dirty_row(dirty, 1), alias])),
        HashMap::from([(0, 2)]),
        "an unresolved clean history must prevent an unordered dirty fallback"
    );
}

#[test]
fn owned_dirty_alias_remains_authoritative_after_the_alias_is_removed() {
    let entry = with_sidecar(entry(1, 101), 500, Some(1));
    let alias = RatingRow {
        path: 10,
        physical: false,
        current_owner: None,
        current_identity: None,
        ..owned(dirty_row(entry, 5), 101)
    };

    assert_eq!(
        loaded(&[entry], snapshot(vec![alias])),
        HashMap::from([(0, 5)]),
        "a validated physical owner must outlive its legacy alias spelling"
    );
}

#[test]
fn owned_dirty_alias_retarget_with_equal_identity_does_not_transfer_rating() {
    let first = entry(1, 101);
    let second = RatedEntry {
        identity: first.identity,
        ..entry(2, 102)
    };
    let alias = RatingRow {
        path: 10,
        physical: false,
        current_owner: second.owner,
        ..owned(dirty_row(first, 5), 101)
    };

    assert!(
        loaded(&[first, second], snapshot(vec![alias])).is_empty(),
        "a current owned row cannot become a legacy fallback for a new physical owner"
    );
}

#[test]
fn legacy_dirty_alias_with_a_clean_sibling_fails_closed_before_migration() {
    let (arw, dng) = (with_sidecar(entry(1, 101), 500, Some(1)), entry(2, 101));
    let rows = vec![
        RatingRow {
            path: 10,
            physical: false,
            ..dirty_row(arw, 5)
        },
        RatingRow {
            path: 20,
            physical: false,
            ..clean_row(dng, Some(2), 0)
        },
    ];

    assert_eq!(
        loaded(&[arw], legacy_snapshot(rows)),
        HashMap::from([(0, 1)]),
        "ambiguous legacy rows must not suppress the current sidecar"
    );
}

#[test]
fn obsolete_exact_path_writer_cannot_make_its_xmp_authoritative() {
    // The newer sidecar was written past the row that protects the rating.
    let entry = with_sidecar(entry(1, 101), 600, Some(1));
    let row = RatingRow {
        sidecar_mtime_ns: 500,
        ..owned(dirty_row(entry, 5), 101)
    };

    assert_eq!(
        loaded(&[entry], snapshot(vec![row])),
        HashMap::from([(0, 5)]),
        "the protected current row must outrank obsolete exact-path XMP"
    );
}

#[test]
fn dirty_owner_rating_wins_for_every_raw_sharing_the_sidecar() {
    let arw = with_sidecar(entry(1, 101), 500, Some(2));
    let dng = with_sidecar(entry(2, 101), 500, Some(2));
    let rows = vec![owned(dirty_row(dng, 5), 101)];

    assert_eq!(
        loaded(&[arw, dng], snapshot(rows)),
        HashMap::from([(0, 5), (1, 5)])
    );
}

#[test]
fn dirty_database_rating_wins_after_a_crash_before_sidecar_flush() {
    let entry = with_sidecar(entry(1, 101), 500, Some(2));
    let row = RatingRow {
        sidecar_mtime_ns: 500,
        ..owned(dirty_row(entry, 5), 101)
    };
    assert_eq!(loaded(&[entry], snapshot(vec![row])), HashMap::from([(0, 5)]));
}

#[test]
fn unresolved_owners_are_rated_one_by_one() {
    let lone = RatedEntry {
        owner: None,
        owner_token: None,
        ..with_sidecar(entry(1, 101), 500, Some(3))
    };
    let other = RatedEntry {
        path: 2,
        sidecar: NO_SIDECAR,
        ..lone
    };
    let without_database = load_ratings::<String>(&[lone, other], None);
    assert_eq!(without_database, HashMap::from([(0, 3)]));
    let rows = vec![
        RatingRow {
            current_owner: None,
            ..dirty_row(lone, 5)
        },
        RatingRow {
            current_owner: None,
            ..clean_row(other, Some(1), 0)
        },
    ];
    assert_eq!(
        loaded(&[lone, other], snapshot(rows)),
        HashMap::from([(0, 5), (1, 1)])
    );
    assert_eq!(rating_owner_keys(&[lone, entry(3, 103)]), [None, Some(103)]);
    let scan =
        benchmark_load_ratings_legacy_full_scan::<String>(&[lone], Ok(RatingSnapshot::default()));
    assert_eq!(scan.unwrap().0, HashMap::from([(0, 3)]));
}

// ---------------------------------------------------------------------------
// Publishing
// ---------------------------------------------------------------------------

/// Photos, the sidecars of their owners, and what paths resolve to.
#[derive(Default)]
struct Files {
    raws: HashMap<u64, RawIdentity>,
    /// Physical path and owner of every path that resolves.
    resolved: HashMap<u64, (u64, u64)>,
    sidecars: HashMap<u64, u8>,
    /// File name of a path.
    names: HashMap<u64, u64>,
}

impl Files {
    fn add(&mut self, path: u64, owner: u64) {
        self.raws.insert(path, identity(path));
        self.resolved.insert(path, (path, owner));
        self.names.insert(path, owner);
    }

    fn write_sidecar(&mut self, path: u64, rated: RawIdentity, rating: u8) -> PendingSidecarWrite {
        let current = self.raws.get(&path).copied().ok_or("missing".to_owned());
        let outcome = check_raw_identity("photo", current, rated).and_then(|()| {
            self.sidecars.insert(self.resolved[&path].1, rating);
            sidecar_outcome("photo.xmp", Ok(()), Some(1))
        });
        pending_sidecar_write(&outcome)
    }
}

#[derive(Clone, Copy, Debug, PartialEq)]
struct StoredRating {
    path: u64,
    name: u64,
    identity: RawIdentity,
    rating: u8,
    dirty: bool,
    revision: u64,
}

/// The journal: one row per sidecar owner.
#[derive(Default)]
struct Db {
    rows: HashMap<u64, StoredRating>,
    revision: u64,
    rejects: bool,
}

impl Db {
    fn owner_revision(&self, owner: u64) -> u64 {
        self.rows.get(&owner).map_or(0, |row| row.revision)
    }

    fn name_revision(&self, name: u64) -> u64 {
        self.rows
            .values()
            .filter(|row| row.name == name)
            .map(|row| row.revision)
            .max()
            .unwrap_or(0)
    }

    fn record(&mut self, owner: u64, path: u64, name: u64, identity: RawIdentity, rating: u8) -> bool {
        if self.rejects {
            return false;
        }
        self.revision += 1;
        self.rows.insert(
            owner,
            StoredRating {
                path,
                name,
                identity,
                rating,
                dirty: true,
                revision: self.revision,
            },
        );
        true
    }

    fn state(&self, owner: u64) -> Option<(u64, u8, bool)> {
        self.rows
            .get(&owner)
            .map(|row| (row.path, row.rating, row.dirty))
    }
}

/// The persistence service with its outside world at hand.
struct Service {
    journal: RatingJournal,
    library: Library,
    now: u64,
}

const PRIVATE_KEY: u64 = 1 << 63;

impl Service {
    fn start(db: bool) -> Self {
        let mut library = Library::start(db);
        if db {
            library.mark_database_ready();
        }
        Service {
            journal: RatingJournal::new(db),
            library,
            now: 0,
        }
    }

    fn recover(files: &mut Files, db: &mut Db) -> Self {
        let rows = db
            .rows
            .iter()
            .filter(|(_, row)| row.dirty)
            .map(|(owner, row)| RecoveredRow {
                owner: *owner,
                path: row.path,
                identity: row.identity,
                rating: row.rating,
            })
            .collect();
        let mut service = Service {
            journal: RatingJournal::recover(&rows, 0),
            library: Library::start(true),
            now: 0,
        };
        service.flush_due(files, Some(db), true);
        service.library.mark_database_ready();
        service
    }

    fn set_rating(&mut self, files: &Files, mut db: Option<&mut Db>, path: u64, rating: u8) {
        let rated = files
            .raws
            .get(&path)
            .copied()
            .unwrap_or_else(|| identity(path));
        self.set_identity_rating(files, db.as_deref_mut(), path, rated, rating);
    }

    fn set_identity_rating(
        &mut self,
        files: &Files,
        db: Option<&mut Db>,
        path: u64,
        rated: RawIdentity,
        rating: u8,
    ) {
        self.library.set_rating(true);
        let (path, key, owner_resolved) = match files.resolved.get(&path) {
            Some((physical, owner)) => (*physical, *owner, true),
            None => (path, path | PRIVATE_KEY, false),
        };
        let name = files.names.get(&path).copied().unwrap_or(0);
        let mut predecessor = None;
        let mut recorded = false;
        if let Some(db) = db {
            predecessor = self
                .journal
                .predecessor_to_read(owner_resolved)
                .map(|read| match read {
                    PredecessorRead::Owner => JournalPredecessor::Owner(db.owner_revision(key)),
                    PredecessorRead::Global => JournalPredecessor::Global(db.name_revision(name)),
                });
            recorded = self.journal.should_record(owner_resolved)
                && db.record(key, path, name, rated, rating);
        }
        self.journal.accept(
            NewRating {
                path,
                key,
                owner_resolved,
                identity: rated,
                rating,
                predecessor,
                recorded,
            },
            self.now,
            60_000,
        );
    }

    fn flush_due(&mut self, files: &mut Files, mut db: Option<&mut Db>, all: bool) -> bool {
        for key in self.journal.due_keys(self.now, all) {
            let mut step = self.journal.begin(key, self.now);
            while let Some(FlushStep::Act(held, action)) = step {
                let event = match action {
                    FlushAction::ResolveOwner => match files.resolved.get(&held.item.path) {
                        Some((path, owner)) => FlushEvent::OwnerResolved {
                            path: *path,
                            owner: *owner,
                        },
                        None => FlushEvent::OwnerUnresolved,
                    },
                    FlushAction::Journal(predecessor) => {
                        let db = db.as_deref_mut().unwrap();
                        let name = files.names[&held.item.path];
                        let unchanged = match predecessor {
                            JournalPredecessor::Owner(revision) => {
                                db.owner_revision(held.key) == revision
                            }
                            JournalPredecessor::Global(revision) => {
                                db.name_revision(name) == revision
                            }
                        };
                        let item = held.item;
                        if !unchanged {
                            FlushEvent::JournalSuperseded
                        } else if db.record(held.key, item.path, name, item.identity, item.rating) {
                            FlushEvent::Journaled
                        } else {
                            FlushEvent::JournalFailed
                        }
                    }
                    FlushAction::Synchronize => {
                        let db = db.as_deref_mut().unwrap();
                        let item = held.item;
                        if db.state(held.key) != Some((item.path, item.rating, true)) {
                            FlushEvent::Superseded
                        } else {
                            match files.write_sidecar(item.path, item.identity, item.rating) {
                                PendingSidecarWrite::Written(_) => {
                                    db.rows.get_mut(&held.key).unwrap().dirty = false;
                                    FlushEvent::Written
                                }
                                PendingSidecarWrite::Discard => {
                                    db.rows.remove(&held.key);
                                    FlushEvent::Discarded
                                }
                                PendingSidecarWrite::Failed => FlushEvent::PublicationFailed,
                            }
                        }
                    }
                    FlushAction::WriteSidecar => {
                        let item = held.item;
                        match files.write_sidecar(item.path, item.identity, item.rating) {
                            PendingSidecarWrite::Written(_) => FlushEvent::Written,
                            PendingSidecarWrite::Discard => FlushEvent::Discarded,
                            PendingSidecarWrite::Failed => FlushEvent::PublicationFailed,
                        }
                    }
                };
                step = Some(self.journal.step(held, event, self.now));
            }
        }
        self.journal.is_clean()
    }

    fn flush(&mut self, files: &mut Files, db: Option<&mut Db>) {
        if self.library.flush() {
            let clean = self.flush_due(files, db, true);
            self.library.flush_done(clean);
        }
    }

    fn is_dirty(&self) -> bool {
        // A flush that asks the worker shows that something is dirty.
        let mut library = Library::start(false);
        library.set_rating(!self.journal.is_clean());
        library.flush()
    }
}

#[test]
fn flush_waits_for_coalesced_sidecar_and_database_writes() {
    let (mut files, mut db) = (Files::default(), Db::default());
    files.add(1, 101);
    let mut library = Service::start(true);

    library.set_rating(&files, Some(&mut db), 1, 1);
    library.set_rating(&files, Some(&mut db), 1, 5);
    library.set_rating(&files, Some(&mut db), 1, 2);
    assert_eq!(library.journal.pending_len(), 1);
    library.flush(&mut files, Some(&mut db));

    assert_eq!(files.sidecars.get(&101), Some(&2));
    assert_eq!(db.state(101), Some((1, 2, false)));
    assert!(!library.is_dirty());
}

#[test]
fn flush_without_a_new_rating_is_a_local_noop() {
    let mut library = Library::start(false);

    assert!(!library.database_configured());
    assert!(library.database_ready());
    assert!(!library.flush());
    assert!(!library.flush());
    library.set_rating(false);
    assert!(!library.request_flush());
}

#[test]
fn configured_database_lock_never_falls_back_to_unowned_xmp() {
    let (mut files, mut db) = (Files::default(), Db::default());
    files.add(1, 101);
    let request = RatingRequest {
        path: 1,
        identity: identity(1),
        rating: 5,
    };
    let mut library = Library::start(true);
    assert!(!library.database_ready());
    let mut wait = DatabaseWait::new(0);
    assert!(wait.should_open(0));
    assert!(wait.open_failed(0, true, "database is locked".to_owned()));
    assert!(!wait.open_failed(0, true, "database is locked".to_owned()));
    assert_eq!(wait.wait_ms(0), DB_OPEN_LOCK_RETRY_MS);
    assert!(!wait.should_open(DB_OPEN_LOCK_RETRY_MS - 1));

    library.set_rating(true);
    assert_eq!(
        wait.receive(Received::Command(Command::SetRating(request))),
        WaitStep::Continue
    );
    assert!(library.flush());
    assert_eq!(
        wait.receive(Received::Command(Command::Flush { reply: true })),
        WaitStep::ReplyIncomplete
    );
    library.flush_done(false);
    assert_eq!(wait.unpersisted(), 1);
    assert!(files.sidecars.is_empty());

    // The database opens: what waited is served in order.
    let mut service = Service::recover(&mut files, &mut db);
    let mut backlog = wait.into_backlog();
    assert_eq!(
        backlog.pop_front().map(|command| work_for(Received::Command(command))),
        Some(Work::Accept(request))
    );
    service.set_rating(&files, Some(&mut db), request.path, request.rating);
    assert_eq!(
        backlog.pop_front().map(|command| work_for(Received::Command(command))),
        Some(Work::FlushAll { reply: false })
    );
    service.flush(&mut files, Some(&mut db));

    assert!(library.flush());
    assert_eq!(files.sidecars.get(&101), Some(&5));
    assert_eq!(db.state(101), Some((1, 5, false)));
}

#[test]
fn transient_database_directory_failure_never_falls_back_to_unowned_xmp() {
    let mut wait = DatabaseWait::new(7);
    assert!(wait.open_failed(7, false, "cannot create database directory".to_owned()));
    assert_eq!(wait.wait_ms(7), DB_OPEN_OTHER_RETRY_MS);
    assert!(wait.should_open(7 + DB_OPEN_OTHER_RETRY_MS));
    assert_eq!(wait.receive(Received::Timeout), WaitStep::Continue);
    assert_eq!(wait.receive(Received::Disconnected), WaitStep::OpenForShutdown);
    let backlog = wait.into_shutdown_backlog();
    assert_eq!(backlog, [Command::Shutdown]);
}

#[test]
fn configured_database_recovery_precedes_queued_local_commands() {
    let (mut files, mut db) = (Files::default(), Db::default());
    files.add(1, 101);
    db.record(101, 1, 101, identity(1), 1);

    let mut service = Service::recover(&mut files, &mut db);
    assert!(service.library.database_ready());
    assert_eq!(files.sidecars.get(&101), Some(&1));
    service.set_rating(&files, Some(&mut db), 1, 5);
    service.flush(&mut files, Some(&mut db));

    assert_eq!(files.sidecars.get(&101), Some(&5));
    assert_eq!(db.state(101), Some((1, 5, false)));
}

#[test]
fn worker_barrier_observes_fifo_progress_without_flushing() {
    let (mut files, mut db) = (Files::default(), Db::default());
    files.add(1, 101);
    let mut library = Service::start(true);

    library.set_rating(&files, Some(&mut db), 1, 4);
    library.flush_due(&mut files, Some(&mut db), false);

    assert!(files.sidecars.is_empty());
    assert_eq!(db.state(101), Some((1, 4, true)));
}

#[test]
fn requested_flush_preserves_fifo_order_without_a_caller_round_trip() {
    let (mut files, mut db) = (Files::default(), Db::default());
    files.add(1, 101);
    let mut library = Service::start(true);

    library.set_rating(&files, Some(&mut db), 1, 4);
    assert!(library.library.request_flush());
    assert!(!library.library.request_flush());
    let clean = library.flush_due(&mut files, Some(&mut db), true);
    library.library.flush_done(clean);

    assert_eq!(files.sidecars.get(&101), Some(&4));
    assert_eq!(db.state(101), Some((1, 4, false)));
}

#[test]
fn requested_flush_failure_restores_dirty_state_for_a_later_retry() {
    let (mut files, mut db) = (Files::default(), Db::default());
    let mut library = Service::start(true);

    library.set_rating(&files, Some(&mut db), 1, 3);
    library.flush(&mut files, Some(&mut db));
    assert!(library.is_dirty());
    assert!(
        db.rows.is_empty(),
        "an unresolved owner must not be journaled under a guessed key"
    );

    files.add(1, 101);
    library.flush(&mut files, Some(&mut db));

    assert_eq!(files.sidecars.get(&101), Some(&3));
    assert!(!library.is_dirty());
}

#[test]
fn failed_initial_journal_write_cannot_leave_an_older_dirty_rating_authoritative() {
    let (mut files, mut db) = (Files::default(), Db::default());
    files.add(1, 101);
    files.sidecars.insert(101, 1);
    let mut library = Service::start(true);
    db.record(101, 1, 101, identity(1), 1);
    db.rejects = true;

    library.set_rating(&files, Some(&mut db), 1, 5);
    library.flush(&mut files, Some(&mut db));

    assert!(library.is_dirty());
    assert_eq!(files.sidecars.get(&101), Some(&1));
    assert_eq!(db.state(101), Some((1, 1, true)));

    db.rejects = false;
    library.flush(&mut files, Some(&mut db));

    assert_eq!(files.sidecars.get(&101), Some(&5));
    assert!(!library.is_dirty());
    assert_eq!(db.state(101), Some((1, 5, false)));
}

#[test]
fn failed_initial_journal_retry_cannot_overwrite_a_newer_completed_rating() {
    let (mut files, mut db) = (Files::default(), Db::default());
    files.add(1, 101);
    files.sidecars.insert(101, 1);
    let mut library = Service::start(true);
    db.rejects = true;
    library.set_rating(&files, Some(&mut db), 1, 2);
    assert_eq!(files.sidecars.get(&101), Some(&1));
    db.rejects = false;

    let mut newer = Service::start(true);
    newer.set_rating(&files, Some(&mut db), 1, 5);
    newer.flush(&mut files, Some(&mut db));
    library.flush(&mut files, Some(&mut db));

    assert_eq!(files.sidecars.get(&101), Some(&5));
    assert!(!library.is_dirty());
    assert_eq!(db.state(101), Some((1, 5, false)));
}

#[test]
fn physical_path_aliases_share_one_rating_publication_owner() {
    let (mut files, mut db) = (Files::default(), Db::default());
    files.add(1, 101);
    files.resolved.insert(10, (1, 101));
    let mut older = Service::start(true);
    let mut newer = Service::start(true);

    older.set_identity_rating(&files, Some(&mut db), 10, identity(1), 1);
    newer.set_rating(&files, Some(&mut db), 1, 5);
    newer.flush(&mut files, Some(&mut db));
    older.flush(&mut files, Some(&mut db));

    assert_eq!(files.sidecars.get(&101), Some(&5));
    assert_eq!(db.rows.len(), 1);
    assert_eq!(db.state(101), Some((1, 5, false)));
}

#[test]
fn raw_files_with_one_xmp_target_share_publication_ownership() {
    let (mut files, mut db) = (Files::default(), Db::default());
    files.add(1, 101);
    files.add(2, 101);
    let mut older = Service::start(true);
    let mut newer = Service::start(true);

    older.set_rating(&files, Some(&mut db), 1, 1);
    newer.set_rating(&files, Some(&mut db), 2, 5);
    newer.flush(&mut files, Some(&mut db));
    older.flush(&mut files, Some(&mut db));

    assert_eq!(files.sidecars.get(&101), Some(&5));
    assert_eq!(db.state(101), Some((2, 5, false)));
}

#[test]
fn database_free_fallback_coalesces_one_xmp_target() {
    let mut files = Files::default();
    files.add(1, 101);
    files.add(2, 101);
    let mut library = Service::start(false);

    library.set_rating(&files, None, 1, 1);
    library.set_rating(&files, None, 2, 5);
    library.flush(&mut files, None);

    assert_eq!(files.sidecars.get(&101), Some(&5));
}

#[test]
fn unresolved_alias_cannot_publish_after_a_newer_database_rating() {
    let (mut files, mut db) = (Files::default(), Db::default());
    files.add(1, 101);
    files.names.insert(10, 101);
    let mut older = Service::start(true);

    older.set_identity_rating(&files, Some(&mut db), 10, identity(1), 1);
    files.resolved.insert(10, (1, 101));

    let mut newer = Service::start(true);
    newer.set_rating(&files, Some(&mut db), 1, 5);
    newer.flush(&mut files, Some(&mut db));
    older.flush(&mut files, Some(&mut db));

    assert_eq!(files.sidecars.get(&101), Some(&5));
}

#[test]
fn unresolved_owner_survives_an_unrelated_database_rating() {
    let (mut files, mut db) = (Files::default(), Db::default());
    files.add(1, 101);
    files.add(2, 102);
    files.names.insert(10, 101);
    let mut library = Service::start(true);

    library.set_identity_rating(&files, Some(&mut db), 10, identity(1), 1);
    library.set_rating(&files, Some(&mut db), 2, 5);
    library.flush(&mut files, Some(&mut db));
    assert_eq!(files.sidecars.get(&102), Some(&5));

    files.resolved.insert(10, (1, 101));
    library.flush(&mut files, Some(&mut db));

    assert_eq!(files.sidecars.get(&101), Some(&1));
    assert_eq!(files.sidecars.get(&102), Some(&5));
}

#[test]
fn database_free_recovery_cannot_replay_before_a_newer_published_rating() {
    let mut files = Files::default();
    files.add(1, 101);
    let mut library = Service::start(false);

    library.set_identity_rating(&files, None, 10, identity(1), 1);
    library.set_rating(&files, None, 1, 5);
    library.flush(&mut files, None);
    assert_eq!(files.sidecars.get(&101), Some(&5));

    files.resolved.insert(10, (1, 101));
    library.flush(&mut files, None);

    assert_eq!(files.sidecars.get(&101), Some(&5));
}

#[test]
fn failed_journal_retry_cannot_reclaim_a_newer_xmp_owner() {
    let (mut files, mut db) = (Files::default(), Db::default());
    files.add(1, 101);
    files.add(2, 101);
    let mut older = Service::start(true);
    db.rejects = true;
    older.set_rating(&files, Some(&mut db), 1, 1);
    db.rejects = false;

    let mut newer = Service::start(true);
    newer.set_rating(&files, Some(&mut db), 2, 5);
    newer.flush(&mut files, Some(&mut db));
    older.flush(&mut files, Some(&mut db));

    assert_eq!(files.sidecars.get(&101), Some(&5));
    assert_eq!(db.state(101), Some((2, 5, false)));
}

#[test]
fn completed_predecessor_does_not_discard_a_delayed_newer_rating() {
    let (mut files, mut db) = (Files::default(), Db::default());
    files.add(1, 101);
    files.sidecars.insert(101, 1);
    let mut library = Service::start(true);
    db.record(101, 1, 101, identity(1), 1);
    db.rejects = true;
    library.set_rating(&files, Some(&mut db), 1, 5);
    db.rejects = false;
    db.rows.get_mut(&101).unwrap().dirty = false;

    library.flush(&mut files, Some(&mut db));

    assert_eq!(files.sidecars.get(&101), Some(&5));
    assert!(!library.is_dirty());
    assert_eq!(db.state(101), Some((1, 5, false)));
}

#[test]
fn superseded_recovery_cannot_publish_after_a_newer_rating_completed() {
    let (mut files, mut db) = (Files::default(), Db::default());
    files.add(1, 101);
    db.record(101, 1, 101, identity(1), 5);
    db.rows.get_mut(&101).unwrap().dirty = false;
    files.sidecars.insert(101, 5);

    let rows = vec![RecoveredRow {
        owner: 101,
        path: 1,
        identity: identity(1),
        rating: 1,
    }];
    let mut older = Service {
        journal: RatingJournal::recover(&rows, 0),
        library: Library::start(true),
        now: 0,
    };
    assert!(older.flush_due(&mut files, Some(&mut db), true));

    assert_eq!(files.sidecars.get(&101), Some(&5));
    assert_eq!(db.state(101), Some((1, 5, false)));
}

#[test]
fn drop_flushes_pending_rating_and_joins_worker() {
    let (mut files, mut db) = (Files::default(), Db::default());
    files.add(1, 101);
    let mut library = Service::start(true);
    library.set_rating(&files, Some(&mut db), 1, 4);

    assert_eq!(
        work_for(Received::Command(Command::Shutdown)),
        Work::FinalFlush
    );
    assert_eq!(work_for(Received::Disconnected), Work::FinalFlush);
    assert!(library.flush_due(&mut files, Some(&mut db), true));

    assert_eq!(files.sidecars.get(&101), Some(&4));
    assert_eq!(db.state(101), Some((1, 4, false)));
}

#[test]
fn startup_recovers_a_sidecar_left_dirty_by_a_prior_process() {
    let (mut files, mut db) = (Files::default(), Db::default());
    files.add(1, 101);
    files.sidecars.insert(101, 1);
    db.record(101, 1, 101, identity(1), 4);

    let library = Service::recover(&mut files, &mut db);

    assert!(library.journal.is_clean());
    assert_eq!(files.sidecars.get(&101), Some(&4));
    assert_eq!(db.state(101), Some((1, 4, false)));
}

#[test]
fn startup_discards_a_pending_rating_when_the_raw_was_replaced() {
    let (mut files, mut db) = (Files::default(), Db::default());
    files.add(1, 101);
    files.sidecars.insert(101, 1);
    db.record(101, 1, 101, identity(1), 5);
    files.raws.insert(1, RawIdentity { size: 23, mtime_ns: 1 });

    let library = Service::recover(&mut files, &mut db);

    assert!(library.library.database_ready());
    assert_eq!(files.sidecars.get(&101), Some(&1));
    assert!(db.rows.is_empty());
    // Readiness follows the initial recovery.
    let order: Vec<_> = std::iter::successors(Some(StartupStep::FlushRecovered), |step| {
        (*step != StartupStep::Serve).then(|| next_startup_step(*step))
    })
    .collect();
    assert_eq!(
        order,
        [
            StartupStep::FlushRecovered,
            StartupStep::SignalReady,
            StartupStep::Notify,
            StartupStep::Serve,
        ]
    );
}

#[test]
fn raw_identity_is_revalidated_after_database_ownership_is_acquired() {
    let mut files = Files::default();
    files.add(1, 101);
    files.raws.insert(1, RawIdentity { size: 25, mtime_ns: 1 });

    assert_eq!(
        files.write_sidecar(1, identity(1), 5),
        PendingSidecarWrite::Discard
    );
    assert!(files.sidecars.is_empty());
}

#[test]
fn failed_flush_remains_dirty_and_retries_after_the_path_recovers() {
    let (mut files, mut db) = (Files::default(), Db::default());
    let mut library = Service::start(true);

    library.set_rating(&files, Some(&mut db), 1, 3);
    library.flush(&mut files, Some(&mut db));

    assert!(library.is_dirty());
    assert!(files.sidecars.is_empty());
    assert!(db.rows.is_empty());
    assert_eq!(library.journal.wait_ms(library.now), SIDECAR_RETRY_MS);

    files.add(1, 101);
    library.now = SIDECAR_RETRY_MS;
    assert_eq!(library.journal.wait_ms(library.now), 0);
    assert!(library.flush_due(&mut files, Some(&mut db), false));

    assert_eq!(files.sidecars.get(&101), Some(&3));
    assert_eq!(db.state(101), Some((1, 3, false)));
}

#[test]
fn shutdown_flush_retry_is_bounded_and_stops_after_success() {
    let attempts = Cell::new(0);
    let pauses = Cell::new(0);
    assert!(retry_shutdown_flush(
        || {
            attempts.set(attempts.get() + 1);
            attempts.get() == SHUTDOWN_FLUSH_ATTEMPTS
        },
        || pauses.set(pauses.get() + 1),
    ));
    assert_eq!(attempts.get(), SHUTDOWN_FLUSH_ATTEMPTS);
    assert_eq!(pauses.get(), SHUTDOWN_FLUSH_ATTEMPTS - 1);

    attempts.set(0);
    pauses.set(0);
    assert!(!retry_shutdown_flush(
        || {
            attempts.set(attempts.get() + 1);
            false
        },
        || pauses.set(pauses.get() + 1),
    ));
    assert_eq!(attempts.get(), SHUTDOWN_FLUSH_ATTEMPTS);
    assert_eq!(pauses.get(), SHUTDOWN_FLUSH_ATTEMPTS - 1);
}

#[test]
fn shutdown_flushes_follow_one_another_until_one_is_clean() {
    assert_eq!(next_shutdown_step(0, true), ShutdownStep::Done(true));
    assert_eq!(next_shutdown_step(0, false), ShutdownStep::Pause(1));
    assert_eq!(next_shutdown_step(1, false), ShutdownStep::Pause(2));
    assert_eq!(next_shutdown_step(2, true), ShutdownStep::Done(true));
    assert_eq!(next_shutdown_step(2, false), ShutdownStep::Done(false));
}

#[test]
fn ratings_wait_for_their_debounce() {
    let mut files = Files::default();
    files.add(1, 101);
    let mut journal = RatingJournal::new(false);
    assert_eq!(journal.wait_ms(9), 3_600_000);
    let new = NewRating {
        path: 1,
        key: 101,
        owner_resolved: true,
        identity: identity(1),
        rating: 4,
        predecessor: None,
        recorded: false,
    };
    journal.accept(new, 1_000, SIDECAR_DEBOUNCE_MS);
    assert_eq!(journal.wait_ms(1_100), 300);
    assert!(journal.due_keys(1_399, false).is_empty());
    assert_eq!(journal.due_keys(1_400, false), [101]);
    let item = journal.pending(101).unwrap();
    assert_eq!((item.sequence, item.due, item.journaled), (1, 1_400, false));

    let Some(FlushStep::Act(held, FlushAction::WriteSidecar)) = journal.begin(101, 1_400) else {
        panic!("a database-free rating goes to its sidecar");
    };
    assert_eq!(
        journal.step(held, FlushEvent::PublicationFailed, 1_400),
        FlushStep::End(FlushEnd::Retained)
    );
    assert_eq!(journal.pending(101).unwrap().due, 6_400);
    assert_eq!(journal.begin(102, 1_400), None);
}

#[test]
fn every_end_of_a_publication_is_told_apart() {
    let end = |event| {
        let rows = vec![RecoveredRow {
            owner: 101,
            path: 1,
            identity: identity(1),
            rating: 1,
        }];
        let mut journal = RatingJournal::recover(&rows, 0);
        let Some(FlushStep::Act(held, FlushAction::Synchronize)) = journal.begin(101, 0) else {
            panic!("a recovered rating resumes at its sidecar");
        };
        (journal.step(held, event, 0), journal.is_clean())
    };
    assert_eq!(end(FlushEvent::Written), (FlushStep::End(FlushEnd::Published), true));
    assert_eq!(end(FlushEvent::Superseded), (FlushStep::End(FlushEnd::Superseded), true));
    assert_eq!(end(FlushEvent::Discarded), (FlushStep::End(FlushEnd::Discarded), true));
    assert_eq!(
        end(FlushEvent::OwnerChanged),
        (FlushStep::End(FlushEnd::Quarantined), true)
    );
    assert_eq!(
        end(FlushEvent::PublicationFailed),
        (FlushStep::End(FlushEnd::Retained), false)
    );
}

#[test]
fn ratings_without_a_known_predecessor_are_not_journaled_later() {
    let mut journal = RatingJournal::new(true);
    let new = NewRating {
        path: 1,
        key: 101,
        owner_resolved: true,
        identity: identity(1),
        rating: 4,
        predecessor: None,
        recorded: false,
    };
    journal.accept(new, 0, 0);
    assert_eq!(
        journal.begin(101, 0),
        Some(FlushStep::End(FlushEnd::Retained))
    );
    assert!(!journal.is_clean());
}

#[test]
fn sidecar_errors_name_their_file() {
    let replaced = check_raw_identity("a.arw", Ok(identity(2)), identity(1)).unwrap_err();
    assert_eq!(replaced.message(), "RAW file was replaced: a.arw");
    let unread = check_raw_identity("a.arw", Err("gone".to_owned()), identity(1)).unwrap_err();
    assert_eq!(unread.message(), "RAW identity read failed for a.arw: gone");
    assert_eq!(pending_sidecar_write(&Err(unread)), PendingSidecarWrite::Failed);
    assert!(check_raw_identity("a.arw", Ok(identity(1)), identity(1)).is_ok());
    let failed = sidecar_outcome("a.xmp", Err("full".to_owned()), None).unwrap_err();
    assert_eq!(failed.message(), "sidecar write failed for a.xmp: full");
    let unknown = sidecar_outcome("a.xmp", Ok(()), None).unwrap_err();
    assert_eq!(unknown.message(), "sidecar metadata read failed for a.xmp");
    assert_eq!(
        pending_sidecar_write(&sidecar_outcome("a.xmp", Ok(()), Some(9))),
        PendingSidecarWrite::Written(9)
    );
    assert_eq!(
        SidecarWriteError::Sidecar("plain".to_owned()).message(),
        "plain"
    );
}

#[test]
fn database_ready_callback_panic_does_not_stop_persistence() {
    let (mut files, mut db) = (Files::default(), Db::default());
    files.add(1, 101);
    let mut library = Service::recover(&mut files, &mut db);
    assert!(library.library.database_ready());
    // Whatever the callback does, serving comes next.
    assert_eq!(next_startup_step(StartupStep::Notify), StartupStep::Serve);

    library.set_rating(&files, Some(&mut db), 1, 4);
    library.flush(&mut files, Some(&mut db));

    assert_eq!(files.sidecars.get(&101), Some(&4));
    assert_eq!(db.state(101), Some((1, 4, false)));
}
