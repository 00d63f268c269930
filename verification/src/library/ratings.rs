//! Initial ratings resolved across the journal, sidecars, and clean database
//! rows.

use std::collections::{HashMap, HashSet};

use vstd::prelude::*;

use crate::library::groups::{
    lemma_positions_complete, lemma_positions_hold, positions, Groups,
};

verus! {

/// Identity of a RAW file.
#[derive(Debug, Clone, Copy, PartialEq, Eq, Structural)]
pub struct RawIdentity {
    pub size: u64,
    pub mtime_ns: i64,
}

/// What a sidecar file says.
#[derive(Debug, Clone, Copy, PartialEq, Eq, Structural)]
pub struct Sidecar {
    /// Modification time, if the file can be examined.
    pub mtime_ns: Option<i64>,
    /// Rating, if the file holds a readable one.
    pub rating: Option<u8>,
}

/// A photo of the open folder.
#[derive(Debug, Clone, Copy, PartialEq, Eq, Structural)]
pub struct RatedEntry {
    pub path: u64,
    pub identity: RawIdentity,
    /// Physical owner of the photo's sidecar, if it can be resolved.
    pub owner: Option<u64>,
    /// Token under which owners with the same name collide.
    pub owner_token: Option<u64>,
    pub sidecar: Sidecar,
}

/// A rating that the database stores, with what the file system says of its
/// path.
#[derive(Debug, Clone, Copy, PartialEq, Eq, Structural)]
pub struct RatingRow {
    pub path: u64,
    /// Identity of the RAW file that was rated.
    pub identity: RawIdentity,
    pub rating: Option<u8>,
    pub sidecar_mtime_ns: i64,
    /// Whether the rating was accepted and its sidecar not yet written.
    pub sidecar_dirty: bool,
    /// Owner that the row was stored under.
    pub sidecar_owner: Option<u64>,
    /// Whether the path is spelled physically, with no alias in it.
    pub physical: bool,
    /// Owner that the path resolves to now.
    pub current_owner: Option<u64>,
    /// Token under which owners with the path's name collide.
    pub token: Option<u64>,
    /// Identity of the file at the path now.
    pub current_identity: Option<RawIdentity>,
    /// Identity now of the RAW file that the stored owner leads to.
    pub owner_identity: Option<RawIdentity>,
}

/// A stored rating with the owner it was found under.
#[derive(Debug, Clone, Copy, PartialEq, Eq, Structural)]
pub struct OwnedRow {
    pub owner: u64,
    pub row: RatingRow,
}

/// The rows of the database that concern the open folder.
pub struct RatingSnapshot {
    pub by_path: Vec<RatingRow>,
    pub by_owner: Vec<OwnedRow>,
    /// Whether the schema predates stored owners.
    pub legacy_owners_require_derivation: bool,
}

/// A snapshot over sequences.
pub struct SnapshotModel {
    pub rows: Seq<RatingRow>,
    pub owned: Seq<OwnedRow>,
    pub legacy: bool,
}

impl View for RatingSnapshot {
    type V = SnapshotModel;

    open spec fn view(&self) -> SnapshotModel {
        SnapshotModel {
            rows: self.by_path@,
            owned: self.by_owner@,
            legacy: self.legacy_owners_require_derivation,
        }
    }
}

/// Snapshot of a database without rows.
pub open spec fn empty_snapshot() -> SnapshotModel {
    SnapshotModel { rows: seq![], owned: seq![], legacy: false }
}

impl Default for RatingSnapshot {
    fn default() -> (snapshot: Self)
        ensures
            snapshot@.rows == empty_snapshot().rows,
            snapshot@.owned == empty_snapshot().owned,
            snapshot@.legacy == empty_snapshot().legacy,
    {
        RatingSnapshot {
            by_path: Vec::new(),
            by_owner: Vec::new(),
            legacy_owners_require_derivation: false,
        }
    }
}

/// Resolved ratings and the physical sidecar owner for each input entry.
pub type RatingLoad = (HashMap<usize, u8>, Vec<Option<u64>>);

// ---------------------------------------------------------------------------
// The rules
// ---------------------------------------------------------------------------

/// Sidecar owner of each entry.
pub open spec fn owner_keys(entries: Seq<RatedEntry>) -> Seq<Option<u64>> {
    entries.map_values(|entry: RatedEntry| entry.owner)
}

/// Path of each entry.
pub open spec fn path_keys(entries: Seq<RatedEntry>) -> Seq<Option<u64>> {
    entries.map_values(|entry: RatedEntry| Some(entry.path))
}

/// Path of each row.
pub open spec fn row_keys(rows: Seq<RatingRow>) -> Seq<Option<u64>> {
    rows.map_values(|row: RatingRow| Some(row.path))
}

/// Owner under which each owned row was found.
pub open spec fn owned_keys(owned: Seq<OwnedRow>) -> Seq<Option<u64>> {
    owned.map_values(|row: OwnedRow| Some(row.owner))
}

/// Whether nothing shows which physical owner a path-spelled rating was
/// accepted for: an alias can since have been removed or retargeted to a RAW
/// file of equal identity.
pub open spec fn is_unproven(row: RatingRow) -> bool {
    !row.physical || row.current_owner is None
}

/// Whether a legacy row without proof shares a collision token. Every row and
/// owner of that name is then unordered with respect to this history.
pub open spec fn is_rejected(snapshot: SnapshotModel, token: Option<u64>) -> bool {
    token is Some && snapshot.legacy && exists|k: int|
        0 <= k < snapshot.rows.len() && is_unproven(#[trigger] snapshot.rows[k])
            && snapshot.rows[k].token == token
}

/// The owner that a row speaks for, and whether the RAW file is still the one
/// that was rated.
pub open spec fn claim(
    entries: Seq<RatedEntry>,
    snapshot: SnapshotModel,
    row: RatingRow,
) -> (Option<u64>, bool) {
    let listed = positions(path_keys(entries), row.path);
    if listed.len() > 0 {
        let entry = entries[listed.last() as int];
        (entry.owner, entry.identity == row.identity)
    } else if row.sidecar_dirty || snapshot.legacy {
        (row.current_owner, row.current_identity == Some(row.identity))
    } else {
        (None, false)
    }
}

/// The owner for which a row is only a fallback: a row without a stored owner,
/// or any legacy row, that resolves to another owner than its own.
pub open spec fn fallback_owner(
    entries: Seq<RatedEntry>,
    snapshot: SnapshotModel,
    row: RatingRow,
) -> Option<u64> {
    let owner = claim(entries, snapshot, row).0;
    if snapshot.legacy && is_unproven(row) {
        None
    } else if owner is Some && (row.sidecar_owner is None || snapshot.legacy) && row.sidecar_owner
        != owner {
        owner
    } else {
        None
    }
}

/// Fallback owner of each row.
pub open spec fn fallback_keys(entries: Seq<RatedEntry>, snapshot: SnapshotModel) -> Seq<
    Option<u64>,
> {
    snapshot.rows.map_values(|row: RatingRow| fallback_owner(entries, snapshot, row))
}

/// The sidecar's rating, if the sidecar is at least as new as `mtime_ns`.
pub open spec fn sidecar_since(sidecar: Sidecar, mtime_ns: int) -> Option<u8> {
    match sidecar.mtime_ns {
        Some(mtime) => if mtime >= mtime_ns {
            sidecar.rating
        } else {
            None
        },
        None => None,
    }
}

/// One rating, or else another.
pub open spec fn or_else(first: Option<u8>, second: Option<u8>) -> Option<u8> {
    if first is Some {
        first
    } else {
        second
    }
}

/// First of some positions whose entry has a path.
pub open spec fn member_with_path(
    entries: Seq<RatedEntry>,
    members: Seq<usize>,
    path: u64,
) -> Option<usize>
    decreases members.len(),
{
    if members.len() == 0 {
        None
    } else if entries[members[0] as int].path == path {
        Some(members[0])
    } else {
        member_with_path(entries, members.subrange(1, members.len() as int), path)
    }
}

/// Whether the RAW file that an owned row was stored for is still there.
pub open spec fn stored_identity_holds(owner: u64, row: RatingRow) -> bool {
    match row.current_owner {
        Some(current) => current == owner && row.current_identity == Some(row.identity),
        None => row.owner_identity == Some(row.identity),
    }
}

/// The stored row of an owner, if it still describes a current RAW file.
pub open spec fn owned_row(
    entries: Seq<RatedEntry>,
    snapshot: SnapshotModel,
    owner: u64,
) -> Option<RatingRow> {
    let listed = positions(owned_keys(snapshot.owned), owner);
    if listed.len() == 0 {
        None
    } else {
        let row = snapshot.owned[listed[0] as int].row;
        let members = positions(owner_keys(entries), owner);
        let current = match member_with_path(entries, members, row.path) {
            Some(i) => entries[i as int].identity == row.identity,
            None => stored_identity_holds(owner, row),
        };
        if current {
            Some(row)
        } else {
            None
        }
    }
}

/// Whether some listed row is dirty.
pub open spec fn any_dirty(snapshot: SnapshotModel, listed: Seq<usize>) -> bool {
    exists|p: int| 0 <= p < listed.len() && snapshot.rows[#[trigger] listed[p] as int].sidecar_dirty
}

/// The listed rows whose RAW file is still the one that was rated.
pub open spec fn current_rows(
    entries: Seq<RatedEntry>,
    snapshot: SnapshotModel,
    listed: Seq<usize>,
) -> Seq<usize>
    decreases listed.len(),
{
    if listed.len() == 0 {
        seq![]
    } else {
        let before = current_rows(entries, snapshot, listed.drop_last());
        if claim(entries, snapshot, snapshot.rows[listed.last() as int]).1 {
            before.push(listed.last())
        } else {
            before
        }
    }
}

/// Newest sidecar time that the listed rows recorded, or zero without rows.
pub open spec fn newest_sidecar(snapshot: SnapshotModel, listed: Seq<usize>) -> int
    decreases listed.len(),
{
    if listed.len() == 0 {
        0
    } else {
        let last = snapshot.rows[listed.last() as int].sidecar_mtime_ns as int;
        let before = newest_sidecar(snapshot, listed.drop_last());
        if listed.len() == 1 || last > before {
            last
        } else {
            before
        }
    }
}

/// The rating on which all listed rows agree.
pub open spec fn agreed_rating(snapshot: SnapshotModel, listed: Seq<usize>) -> Option<u8> {
    if listed.len() > 0 && forall|p: int|
        0 <= p < listed.len() ==> snapshot.rows[#[trigger] listed[p] as int].rating
            == snapshot.rows[listed[0] as int].rating {
        snapshot.rows[listed[0] as int].rating
    } else {
        None
    }
}

/// Rating of an owner from rows that are only fallbacks. A row of a RAW file since
/// replaced says nothing. An ambiguous dirty history yields no rating; conflicting
/// clean rows yield none either.
pub open spec fn fallback_rating(
    entries: Seq<RatedEntry>,
    snapshot: SnapshotModel,
    listed: Seq<usize>,
    sidecar: Sidecar,
) -> Option<u8> {
    let current = current_rows(entries, snapshot, listed);
    if any_dirty(snapshot, current) {
        if listed.len() == 1 {
            snapshot.rows[listed[0] as int].rating
        } else {
            None
        }
    } else {
        or_else(
            sidecar_since(sidecar, newest_sidecar(snapshot, current)),
            agreed_rating(snapshot, current),
        )
    }
}

/// Rating of all photos that share a sidecar owner.
///
/// One XMP target can be shared by multiple RAW containers. A current dirty
/// owner row is authoritative for every member, not just for the exact RAW path
/// that accepted the rating. Once a valid current owner exists, leftover
/// ownerless rows are historical mirrors and cannot suppress or replace it.
pub open spec fn group_rating(
    entries: Seq<RatedEntry>,
    snapshot: SnapshotModel,
    owner: u64,
) -> Option<u8> {
    let first = entries[positions(owner_keys(entries), owner)[0] as int];
    if is_rejected(snapshot, first.owner_token) {
        if first.sidecar.mtime_ns is Some {
            first.sidecar.rating
        } else {
            None
        }
    } else {
        match owned_row(entries, snapshot, owner) {
            Some(row) => if row.sidecar_dirty {
                row.rating
            } else {
                or_else(sidecar_since(first.sidecar, row.sidecar_mtime_ns as int), row.rating)
            },
            None => fallback_rating(
                entries,
                snapshot,
                positions(fallback_keys(entries, snapshot), owner),
                first.sidecar,
            ),
        }
    }
}

/// The stored row of a photo whose sidecar owner cannot be resolved.
pub open spec fn lone_row(snapshot: SnapshotModel, entry: RatedEntry) -> Option<RatingRow> {
    let listed = positions(row_keys(snapshot.rows), entry.path);
    if listed.len() == 0 {
        None
    } else {
        let row = snapshot.rows[listed[0] as int];
        if row.identity == entry.identity && (!snapshot.legacy || (!is_unproven(row)
            && !is_rejected(snapshot, row.token))) {
            Some(row)
        } else {
            None
        }
    }
}

/// Rating of a photo whose sidecar owner cannot be resolved.
pub open spec fn lone_rating(snapshot: SnapshotModel, entry: RatedEntry) -> Option<u8> {
    match lone_row(snapshot, entry) {
        Some(row) => if row.sidecar_dirty && row.rating is Some {
            row.rating
        } else {
            or_else(sidecar_since(entry.sidecar, row.sidecar_mtime_ns as int), row.rating)
        },
        None => sidecar_since(entry.sidecar, 0),
    }
}

/// Initial rating of a photo.
pub open spec fn rating_of(
    entries: Seq<RatedEntry>,
    snapshot: SnapshotModel,
    index: int,
) -> Option<u8> {
    match entries[index].owner {
        Some(owner) => group_rating(entries, snapshot, owner),
        None => lone_rating(snapshot, entries[index]),
    }
}

/// Whether a map holds exactly the ratings of a folder.
pub open spec fn is_rating_map(
    entries: Seq<RatedEntry>,
    snapshot: SnapshotModel,
    ratings: Map<usize, u8>,
) -> bool {
    forall|i: usize| #[trigger]
        ratings.contains_key(i) <==> i < entries.len() && rating_of(
            entries,
            snapshot,
            i as int,
        ) is Some
}

/// Whether a map's ratings are those of a folder.
pub open spec fn are_ratings(
    entries: Seq<RatedEntry>,
    snapshot: SnapshotModel,
    ratings: Map<usize, u8>,
) -> bool {
    &&& is_rating_map(entries, snapshot, ratings)
    &&& forall|i: usize| #[trigger]
        ratings.contains_key(i) ==> rating_of(entries, snapshot, i as int) == Some(ratings[i])
}

// ---------------------------------------------------------------------------
// Resolution
// ---------------------------------------------------------------------------

fn same_identity(current: Option<RawIdentity>, identity: RawIdentity) -> (same: bool)
    ensures
        same == (current == Some(identity)),
{
    match current {
        Some(current) => current == identity,
        None => false,
    }
}

fn same_key(a: Option<u64>, b: Option<u64>) -> (same: bool)
    ensures
        same == (a == b),
{
    match (a, b) {
        (Some(a), Some(b)) => a == b,
        (None, None) => true,
        _ => false,
    }
}

fn unproven(row: &RatingRow) -> (unproven: bool)
    ensures
        unproven == is_unproven(*row),
{
    !row.physical || row.current_owner.is_none()
}

fn read_sidecar_since(sidecar: Sidecar, mtime_ns: i64) -> (rating: Option<u8>)
    ensures
        rating == sidecar_since(sidecar, mtime_ns as int),
{
    match sidecar.mtime_ns {
        Some(mtime) => if mtime >= mtime_ns {
            sidecar.rating
        } else {
            None
        },
        None => None,
    }
}

fn first_or(first: Option<u8>, second: Option<u8>) -> (rating: Option<u8>)
    ensures
        rating == or_else(first, second),
{
    if first.is_some() {
        first
    } else {
        second
    }
}

/// Resolves only physical sidecar owners, without reading XMP or SQLite.
pub fn rating_owner_keys(entries: &[RatedEntry]) -> (owners: Vec<Option<u64>>)
    ensures
        owners@ == owner_keys(entries@),
{
    let mut owners: Vec<Option<u64>> = Vec::new();
    let mut i: usize = 0;
    while i < entries.len()
        invariant
            i <= entries@.len(),
            owners@ == owner_keys(entries@).take(i as int),
        decreases entries@.len() - i,
    {
        owners.push(entries[i].owner);
        i += 1;
        assert(owners@ =~= owner_keys(entries@).take(i as int));
    }
    assert(owners@ =~= owner_keys(entries@));
    owners
}

fn entry_paths(entries: &[RatedEntry]) -> (paths: Vec<Option<u64>>)
    ensures
        paths@ == path_keys(entries@),
{
    let mut paths: Vec<Option<u64>> = Vec::new();
    let mut i: usize = 0;
    while i < entries.len()
        invariant
            i <= entries@.len(),
            paths@ == path_keys(entries@).take(i as int),
        decreases entries@.len() - i,
    {
        paths.push(Some(entries[i].path));
        i += 1;
        assert(paths@ =~= path_keys(entries@).take(i as int));
    }
    assert(paths@ =~= path_keys(entries@));
    paths
}

fn row_paths(rows: &Vec<RatingRow>) -> (paths: Vec<Option<u64>>)
    ensures
        paths@ == row_keys(rows@),
{
    let mut paths: Vec<Option<u64>> = Vec::new();
    let mut i: usize = 0;
    while i < rows.len()
        invariant
            i <= rows@.len(),
            paths@ == row_keys(rows@).take(i as int),
        decreases rows@.len() - i,
    {
        paths.push(Some(rows[i].path));
        i += 1;
        assert(paths@ =~= row_keys(rows@).take(i as int));
    }
    assert(paths@ =~= row_keys(rows@));
    paths
}

fn row_owners(rows: &Vec<OwnedRow>) -> (owners: Vec<Option<u64>>)
    ensures
        owners@ == owned_keys(rows@),
{
    let mut owners: Vec<Option<u64>> = Vec::new();
    let mut i: usize = 0;
    while i < rows.len()
        invariant
            i <= rows@.len(),
            owners@ == owned_keys(rows@).take(i as int),
        decreases rows@.len() - i,
    {
        owners.push(Some(rows[i].owner));
        i += 1;
        assert(owners@ =~= owned_keys(rows@).take(i as int));
    }
    assert(owners@ =~= owned_keys(rows@));
    owners
}

/// Collects the collision tokens of legacy rows without proof.
fn rejected_tokens(snapshot: &RatingSnapshot) -> (tokens: HashSet<u64>)
    ensures
        forall|token: u64| #[trigger]
            tokens@.contains(token) <==> is_rejected(snapshot@, Some(token)),
{
    broadcast use vstd::std_specs::hash::group_hash_axioms;

    let mut tokens: HashSet<u64> = HashSet::new();
    if !snapshot.legacy_owners_require_derivation {
        return tokens;
    }
    let mut k: usize = 0;
    while k < snapshot.by_path.len()
        invariant
            k <= snapshot@.rows.len(),
            snapshot@.legacy,
            forall|token: u64| #[trigger]
                tokens@.contains(token) <==> exists|j: int|
                    0 <= j < k && is_unproven(#[trigger] snapshot@.rows[j])
                        && snapshot@.rows[j].token == Some(token),
        decreases snapshot@.rows.len() - k,
    {
        broadcast use vstd::std_specs::hash::group_hash_axioms;

        let row = &snapshot.by_path[k];
        let ghost before = tokens@;
        assert(*row == snapshot@.rows[k as int]);
        if unproven(row) {
            if let Some(token) = row.token {
                tokens.insert(token);
            }
        }
        k += 1;
        proof {
            assert forall|token: u64| #[trigger] tokens@.contains(token) <==> exists|j: int|
                0 <= j < k && is_unproven(#[trigger] snapshot@.rows[j]) && snapshot@.rows[j].token
                    == Some(token) by {
                if before.contains(token) {
                    let j = choose|j: int|
                        0 <= j < k - 1 && is_unproven(#[trigger] snapshot@.rows[j])
                            && snapshot@.rows[j].token == Some(token);
                    assert(is_unproven(snapshot@.rows[j]));
                }
            }
        }
    }
    tokens
}

fn token_rejected(tokens: &HashSet<u64>, token: Option<u64>, snapshot: &RatingSnapshot) -> (rejected:
    bool)
    requires
        forall|token: u64| #[trigger]
            tokens@.contains(token) <==> is_rejected(snapshot@, Some(token)),
    ensures
        rejected == is_rejected(snapshot@, token),
{
    broadcast use vstd::std_specs::hash::group_hash_axioms;

    match token {
        Some(token) => tokens.contains(&token),
        None => false,
    }
}

fn resolve_claim(
    entries: &[RatedEntry],
    by_path: &Groups,
    snapshot: &RatingSnapshot,
    row: &RatingRow,
) -> (resolved: (Option<u64>, bool))
    requires
        by_path.of_keys(path_keys(entries@)),
    ensures
        resolved == claim(entries@, snapshot@, *row),
{
    let len: usize = entries.len();
    proof {
        lemma_positions_hold(path_keys(entries@), row.path);
    }
    match by_path.get(row.path, Ghost(path_keys(entries@))) {
        Some(listed) if listed.len() > 0 => {
            let index: usize = listed[listed.len() - 1];
            assert(positions(path_keys(entries@), row.path)[listed@.len() - 1] == index);
            let entry = entries[index];
            (entry.owner, entry.identity == row.identity)
        },
        _ => {
            if row.sidecar_dirty || snapshot.legacy_owners_require_derivation {
                (row.current_owner, same_identity(row.current_identity, row.identity))
            } else {
                (None, false)
            }
        },
    }
}

/// Resolves what each row claims: its fallback owner, and whether it is current.
fn resolve_claims(entries: &[RatedEntry], by_path: &Groups, snapshot: &RatingSnapshot) -> (claims: (
    Vec<Option<u64>>,
    Vec<bool>,
))
    requires
        by_path.of_keys(path_keys(entries@)),
    ensures
        claims.0@ == fallback_keys(entries@, snapshot@),
        claims.1@.len() == snapshot@.rows.len(),
        forall|k: int|
            0 <= k < claims.1@.len() ==> (#[trigger] claims.1@[k]) == claim(
                entries@,
                snapshot@,
                snapshot@.rows[k],
            ).1,
{
    let mut owners: Vec<Option<u64>> = Vec::new();
    let mut current: Vec<bool> = Vec::new();
    let mut k: usize = 0;
    while k < snapshot.by_path.len()
        invariant
            k <= snapshot@.rows.len(),
            by_path.of_keys(path_keys(entries@)),
            owners@ == fallback_keys(entries@, snapshot@).take(k as int),
            current@.len() == k,
            forall|j: int|
                0 <= j < k ==> (#[trigger] current@[j]) == claim(
                    entries@,
                    snapshot@,
                    snapshot@.rows[j],
                ).1,
        decreases snapshot@.rows.len() - k,
    {
        let row = &snapshot.by_path[k];
        let legacy: bool = snapshot.legacy_owners_require_derivation;
        let (owner, matches_identity) = resolve_claim(entries, by_path, snapshot, row);
        let fallback: Option<u64> = if (legacy && unproven(row)) || owner.is_none() || !(
        row.sidecar_owner.is_none() || legacy) || same_key(row.sidecar_owner, owner) {
            None
        } else {
            owner
        };
        owners.push(fallback);
        current.push(matches_identity);
        k += 1;
        assert(owners@ =~= fallback_keys(entries@, snapshot@).take(k as int));
    }
    assert(owners@ =~= fallback_keys(entries@, snapshot@));
    (owners, current)
}

fn find_member(entries: &[RatedEntry], members: &Vec<usize>, path: u64) -> (found: Option<usize>)
    requires
        forall|p: int| 0 <= p < members@.len() ==> (#[trigger] members@[p]) < entries@.len(),
    ensures
        found == member_with_path(entries@, members@, path),
        found matches Some(i) ==> i < entries@.len(),
{
    let mut p: usize = 0;
    proof {
        assert(members@.subrange(0, members@.len() as int) =~= members@);
    }
    while p < members.len()
        invariant
            p <= members@.len(),
            forall|p: int| 0 <= p < members@.len() ==> (#[trigger] members@[p]) < entries@.len(),
            member_with_path(entries@, members@, path) == member_with_path(
                entries@,
                members@.subrange(p as int, members@.len() as int),
                path,
            ),
        decreases members@.len() - p,
    {
        let index: usize = members[p];
        let ghost rest = members@.subrange(p as int, members@.len() as int);
        assert(rest[0] == index);
        if entries[index].path == path {
            return Some(index);
        }
        assert(rest.subrange(1, rest.len() as int) =~= members@.subrange(
            p + 1,
            members@.len() as int,
        ));
        p += 1;
    }
    None
}

fn stored_owner_identity_matches(owner: u64, row: &RatingRow) -> (holds: bool)
    ensures
        holds == stored_identity_holds(owner, *row),
{
    match row.current_owner {
        Some(current) => current == owner && same_identity(row.current_identity, row.identity),
        None => same_identity(row.owner_identity, row.identity),
    }
}

fn resolve_owned_row(
    entries: &[RatedEntry],
    snapshot: &RatingSnapshot,
    members: &Vec<usize>,
    owned: &Groups,
    owner: u64,
) -> (found: Option<RatingRow>)
    requires
        members@ == positions(owner_keys(entries@), owner),
        owned.of_keys(owned_keys(snapshot@.owned)),
    ensures
        found == owned_row(entries@, snapshot@, owner),
{
    let len: usize = entries.len();
    let owned_len: usize = snapshot.by_owner.len();
    proof {
        lemma_positions_hold(owned_keys(snapshot@.owned), owner);
        lemma_positions_hold(owner_keys(entries@), owner);
    }
    match owned.get(owner, Ghost(owned_keys(snapshot@.owned))) {
        Some(listed) if listed.len() > 0 => {
            let at: usize = listed[0];
            assert(positions(owned_keys(snapshot@.owned), owner)[0] == at);
            let row = snapshot.by_owner[at].row;
            assert forall|p: int| 0 <= p < members@.len() implies (#[trigger] members@[p])
                < entries@.len() by {
                assert(positions(owner_keys(entries@), owner)[p] == members@[p]);
            }
            let current: bool = match find_member(entries, members, row.path) {
                Some(index) => entries[index].identity == row.identity,
                None => stored_owner_identity_matches(owner, &row),
            };
            if current {
                Some(row)
            } else {
                None
            }
        },
        _ => None,
    }
}

fn listed_dirty(snapshot: &RatingSnapshot, listed: &Vec<usize>) -> (dirty: bool)
    requires
        forall|p: int| 0 <= p < listed@.len() ==> (#[trigger] listed@[p]) < snapshot@.rows.len(),
    ensures
        dirty == any_dirty(snapshot@, listed@),
{
    let mut p: usize = 0;
    while p < listed.len()
        invariant
            p <= listed@.len(),
            forall|p: int|
                0 <= p < listed@.len() ==> (#[trigger] listed@[p]) < snapshot@.rows.len(),
            forall|q: int|
                0 <= q < p ==> !snapshot@.rows[#[trigger] listed@[q] as int].sidecar_dirty,
        decreases listed@.len() - p,
    {
        let k: usize = listed[p];
        if snapshot.by_path[k].sidecar_dirty {
            assert(snapshot@.rows[listed@[p as int] as int].sidecar_dirty);
            return true;
        }
        p += 1;
    }
    false
}

fn keep_current(
    Ghost(entries): Ghost<Seq<RatedEntry>>,
    snapshot: &RatingSnapshot,
    current: &Vec<bool>,
    listed: &Vec<usize>,
) -> (kept: Vec<usize>)
    requires
        forall|p: int| 0 <= p < listed@.len() ==> (#[trigger] listed@[p]) < snapshot@.rows.len(),
        current@.len() == snapshot@.rows.len(),
        forall|k: int|
            0 <= k < current@.len() ==> (#[trigger] current@[k]) == claim(
                entries,
                snapshot@,
                snapshot@.rows[k],
            ).1,
    ensures
        kept@ == current_rows(entries, snapshot@, listed@),
        kept@.len() <= listed@.len(),
        forall|p: int| 0 <= p < kept@.len() ==> (#[trigger] kept@[p]) < snapshot@.rows.len(),
{
    let mut kept: Vec<usize> = Vec::new();
    let mut p: usize = 0;
    proof {
        assert(listed@.take(0) =~= seq![]);
    }
    while p < listed.len()
        invariant
            p <= listed@.len(),
            forall|p: int|
                0 <= p < listed@.len() ==> (#[trigger] listed@[p]) < snapshot@.rows.len(),
            current@.len() == snapshot@.rows.len(),
            forall|k: int|
                0 <= k < current@.len() ==> (#[trigger] current@[k]) == claim(
                    entries,
                    snapshot@,
                    snapshot@.rows[k],
                ).1,
            kept@ == current_rows(entries, snapshot@, listed@.take(p as int)),
            kept@.len() <= p,
            forall|p: int| 0 <= p < kept@.len() ==> (#[trigger] kept@[p]) < snapshot@.rows.len(),
        decreases listed@.len() - p,
    {
        let k: usize = listed[p];
        assert(listed@.take(p + 1).drop_last() =~= listed@.take(p as int));
        if current[k] {
            kept.push(k);
        }
        p += 1;
    }
    assert(listed@.take(p as int) =~= listed@);
    kept
}

fn newest_of(snapshot: &RatingSnapshot, listed: &Vec<usize>) -> (newest: i64)
    requires
        forall|p: int| 0 <= p < listed@.len() ==> (#[trigger] listed@[p]) < snapshot@.rows.len(),
    ensures
        newest == newest_sidecar(snapshot@, listed@),
{
    let mut newest: i64 = 0;
    let mut p: usize = 0;
    proof {
        assert(listed@.take(0) =~= seq![]);
    }
    while p < listed.len()
        invariant
            p <= listed@.len(),
            forall|p: int|
                0 <= p < listed@.len() ==> (#[trigger] listed@[p]) < snapshot@.rows.len(),
            newest == newest_sidecar(snapshot@, listed@.take(p as int)),
        decreases listed@.len() - p,
    {
        let k: usize = listed[p];
        let mtime_ns: i64 = snapshot.by_path[k].sidecar_mtime_ns;
        assert(listed@.take(p + 1).drop_last() =~= listed@.take(p as int));
        if p == 0 || mtime_ns > newest {
            newest = mtime_ns;
        }
        p += 1;
    }
    assert(listed@.take(p as int) =~= listed@);
    newest
}

fn same_rating(a: Option<u8>, b: Option<u8>) -> (same: bool)
    ensures
        same == (a == b),
{
    match (a, b) {
        (Some(a), Some(b)) => a == b,
        (None, None) => true,
        _ => false,
    }
}

fn agreed(snapshot: &RatingSnapshot, listed: &Vec<usize>) -> (rating: Option<u8>)
    requires
        forall|p: int| 0 <= p < listed@.len() ==> (#[trigger] listed@[p]) < snapshot@.rows.len(),
    ensures
        rating == agreed_rating(snapshot@, listed@),
{
    if listed.len() == 0 {
        return None;
    }
    let first: Option<u8> = snapshot.by_path[listed[0]].rating;
    let mut p: usize = 0;
    while p < listed.len()
        invariant
            p <= listed@.len(),
            listed@.len() > 0,
            first == snapshot@.rows[listed@[0] as int].rating,
            forall|p: int|
                0 <= p < listed@.len() ==> (#[trigger] listed@[p]) < snapshot@.rows.len(),
            forall|q: int|
                0 <= q < p ==> snapshot@.rows[#[trigger] listed@[q] as int].rating == first,
        decreases listed@.len() - p,
    {
        let k: usize = listed[p];
        if !same_rating(snapshot.by_path[k].rating, first) {
            assert(snapshot@.rows[listed@[p as int] as int].rating != first);
            return None;
        }
        p += 1;
    }
    first
}

fn resolve_fallback(
    entries: &[RatedEntry],
    snapshot: &RatingSnapshot,
    current: &Vec<bool>,
    listed: &Vec<usize>,
    sidecar: Sidecar,
) -> (rating: Option<u8>)
    requires
        forall|p: int| 0 <= p < listed@.len() ==> (#[trigger] listed@[p]) < snapshot@.rows.len(),
        current@.len() == snapshot@.rows.len(),
        forall|k: int|
            0 <= k < current@.len() ==> (#[trigger] current@[k]) == claim(
                entries@,
                snapshot@,
                snapshot@.rows[k],
            ).1,
    ensures
        rating == fallback_rating(entries@, snapshot@, listed@, sidecar),
{
    let kept = keep_current(Ghost(entries@), snapshot, current, listed);
    if listed_dirty(snapshot, &kept) {
        if listed.len() == 1 {
            snapshot.by_path[listed[0]].rating
        } else {
            None
        }
    } else {
        let newest: i64 = newest_of(snapshot, &kept);
        first_or(read_sidecar_since(sidecar, newest), agreed(snapshot, &kept))
    }
}

fn resolve_lone(
    snapshot: &RatingSnapshot,
    rows_by_path: &Groups,
    tokens: &HashSet<u64>,
    entry: RatedEntry,
) -> (rating: Option<u8>)
    requires
        rows_by_path.of_keys(row_keys(snapshot@.rows)),
        forall|token: u64| #[trigger]
            tokens@.contains(token) <==> is_rejected(snapshot@, Some(token)),
    ensures
        rating == lone_rating(snapshot@, entry),
{
    let len: usize = snapshot.by_path.len();
    proof {
        lemma_positions_hold(row_keys(snapshot@.rows), entry.path);
    }
    let row: Option<RatingRow> = match rows_by_path.get(
        entry.path,
        Ghost(row_keys(snapshot@.rows)),
    ) {
        Some(listed) if listed.len() > 0 => {
            let k: usize = listed[0];
            assert(positions(row_keys(snapshot@.rows), entry.path)[0] == k);
            let row = snapshot.by_path[k];
            if row.identity == entry.identity && (!snapshot.legacy_owners_require_derivation || (
            !unproven(&row) && !token_rejected(tokens, row.token, snapshot))) {
                Some(row)
            } else {
                None
            }
        },
        _ => None,
    };
    match row {
        Some(row) => if row.sidecar_dirty && row.rating.is_some() {
            row.rating
        } else {
            first_or(read_sidecar_since(entry.sidecar, row.sidecar_mtime_ns), row.rating)
        },
        None => read_sidecar_since(entry.sidecar, 0),
    }
}

/// Everything that resolution looks up.
struct Lookup {
    members: Groups,
    owned: Groups,
    rows_by_path: Groups,
    fallbacks: Groups,
    current: Vec<bool>,
    tokens: HashSet<u64>,
}

impl Lookup {
    spec fn wf(self, entries: Seq<RatedEntry>, snapshot: SnapshotModel) -> bool {
        &&& self.members.of_keys(owner_keys(entries))
        &&& self.owned.of_keys(owned_keys(snapshot.owned))
        &&& self.rows_by_path.of_keys(row_keys(snapshot.rows))
        &&& self.fallbacks.of_keys(fallback_keys(entries, snapshot))
        &&& self.current@.len() == snapshot.rows.len()
        &&& forall|k: int|
            0 <= k < self.current@.len() ==> (#[trigger] self.current@[k]) == claim(
                entries,
                snapshot,
                snapshot.rows[k],
            ).1
        &&& forall|token: u64| #[trigger]
            self.tokens@.contains(token) <==> is_rejected(snapshot, Some(token))
    }
}

fn resolve_group(
    entries: &[RatedEntry],
    snapshot: &RatingSnapshot,
    lookup: &Lookup,
    members: &Vec<usize>,
    owner: u64,
) -> (rating: Option<u8>)
    requires
        lookup.wf(entries@, snapshot@),
        members@ == positions(owner_keys(entries@), owner),
        members@.len() > 0,
    ensures
        rating == group_rating(entries@, snapshot@, owner),
{
    let len: usize = entries.len();
    let rows: usize = snapshot.by_path.len();
    proof {
        lemma_positions_hold(owner_keys(entries@), owner);
        lemma_positions_hold(fallback_keys(entries@, snapshot@), owner);
        assert(positions(owner_keys(entries@), owner)[0] == members@[0]);
    }
    let first = entries[members[0]];
    if token_rejected(&lookup.tokens, first.owner_token, snapshot) {
        return if first.sidecar.mtime_ns.is_some() {
            first.sidecar.rating
        } else {
            None
        };
    }
    match resolve_owned_row(entries, snapshot, members, &lookup.owned, owner) {
        Some(row) => if row.sidecar_dirty {
            row.rating
        } else {
            first_or(read_sidecar_since(first.sidecar, row.sidecar_mtime_ns), row.rating)
        },
        None => {
            let ghost keys = fallback_keys(entries@, snapshot@);
            match lookup.fallbacks.get(owner, Ghost(keys)) {
                Some(listed) => {
                    assert forall|p: int| 0 <= p < listed@.len() implies (#[trigger] listed@[p])
                        < snapshot@.rows.len() by {
                        assert(positions(keys, owner)[p] == listed@[p]);
                    }
                    resolve_fallback(entries, snapshot, &lookup.current, listed, first.sidecar)
                },
                None => {
                    let listed: Vec<usize> = Vec::new();
                    assert(listed@ =~= positions(keys, owner));
                    resolve_fallback(entries, snapshot, &lookup.current, &listed, first.sidecar)
                },
            }
        },
    }
}

/// Resolves the rating of every entry.
fn resolve_all(entries: &[RatedEntry], snapshot: &RatingSnapshot, lookup: &Lookup) -> (ratings: Vec<
    Option<u8>,
>)
    requires
        lookup.wf(entries@, snapshot@),
    ensures
        ratings@.len() == entries@.len(),
        forall|i: int|
            0 <= i < ratings@.len() ==> (#[trigger] ratings@[i]) == rating_of(
                entries@,
                snapshot@,
                i,
            ),
{
    let mut ratings: Vec<Option<u8>> = Vec::new();
    let mut i: usize = 0;
    let len: usize = entries.len();
    while i < len
        invariant
            len == entries@.len(),
            i <= len,
            ratings@.len() == i,
            lookup.wf(entries@, snapshot@),
            forall|j: int|
                0 <= j < i ==> (#[trigger] ratings@[j]) == rating_of(entries@, snapshot@, j),
        decreases len - i,
    {
        let rating: Option<u8> = match entries[i].owner {
            Some(owner) => {
                let ghost keys = owner_keys(entries@);
                proof {
                    assert(keys[i as int] == Some(owner));
                    lemma_positions_complete(keys, owner, i as int);
                    lemma_positions_hold(keys, owner);
                }
                match lookup.members.get(owner, Ghost(keys)) {
                    Some(members) => {
                        let first: usize = members[0];
                        assert(positions(keys, owner)[0] == first);
                        if first < i {
                            assert(keys[first as int] == Some(owner));
                            ratings[first]
                        } else {
                            resolve_group(entries, snapshot, lookup, members, owner)
                        }
                    },
                    None => None,
                }
            },
            None => resolve_lone(snapshot, &lookup.rows_by_path, &lookup.tokens, entries[i]),
        };
        ratings.push(rating);
        i += 1;
    }
    ratings
}

/// Resolves ratings from the entries of a folder and a database snapshot.
pub fn resolve_rating_snapshot(entries: &[RatedEntry], snapshot: &RatingSnapshot) -> (load:
    RatingLoad)
    ensures
        are_ratings(entries@, snapshot@, load.0@),
        load.1@ == owner_keys(entries@),
{
    broadcast use vstd::std_specs::hash::group_hash_axioms;

    let owners = rating_owner_keys(entries);
    let by_path = Groups::new(&entry_paths(entries));
    let (fallback_owners, current) = resolve_claims(entries, &by_path, snapshot);
    let lookup = Lookup {
        members: Groups::new(&owners),
        owned: Groups::new(&row_owners(&snapshot.by_owner)),
        rows_by_path: Groups::new(&row_paths(&snapshot.by_path)),
        fallbacks: Groups::new(&fallback_owners),
        current,
        tokens: rejected_tokens(snapshot),
    };
    let ratings = resolve_all(entries, snapshot, &lookup);
    let mut out: HashMap<usize, u8> = HashMap::new();
    let mut i: usize = 0;
    while i < ratings.len()
        invariant
            i <= ratings@.len(),
            ratings@.len() == entries@.len(),
            forall|j: int|
                0 <= j < ratings@.len() ==> (#[trigger] ratings@[j]) == rating_of(
                    entries@,
                    snapshot@,
                    j,
                ),
            forall|j: usize| #[trigger]
                out@.contains_key(j) <==> j < i && ratings@[j as int] is Some,
            forall|j: usize| #[trigger]
                out@.contains_key(j) ==> ratings@[j as int] == Some(out@[j]),
        decreases ratings@.len() - i,
    {
        broadcast use vstd::std_specs::hash::group_hash_axioms;

        if let Some(rating) = ratings[i] {
            out.insert(i, rating);
        }
        i += 1;
    }
    (out, owners)
}

/// The snapshot that ratings resolve against: none without a database or after
/// a failed read.
pub open spec fn usable_snapshot<E>(snapshot: Option<Result<RatingSnapshot, E>>) -> SnapshotModel {
    match snapshot {
        Some(Ok(snapshot)) => snapshot@,
        _ => empty_snapshot(),
    }
}

fn resolve_without_database(entries: &[RatedEntry]) -> (load: RatingLoad)
    ensures
        are_ratings(entries@, empty_snapshot(), load.0@),
        load.1@ == owner_keys(entries@),
{
    let snapshot = RatingSnapshot::default();
    assert(snapshot@ == empty_snapshot());
    resolve_rating_snapshot(entries, &snapshot)
}

/// Initial persisted per-index ratings resolved across the journal, sidecars,
/// and clean database rows. Embedded camera ratings arrive later via the
/// metadata wave; apply them only where this map has no entry.
///
/// A journal row marked dirty wins over any sidecar because it represents a
/// rating accepted before an interrupted sidecar write. Database lookup is
/// best-effort when there is no snapshot or it contains no matching row.
pub fn load_ratings<E>(
    entries: &[RatedEntry],
    snapshot: Option<Result<RatingSnapshot, E>>,
) -> (ratings: HashMap<usize, u8>)
    ensures
        are_ratings(entries@, usable_snapshot(snapshot), ratings@),
{
    load_ratings_with_owners(entries, snapshot).0
}

/// Resolves initial ratings together with stable XMP ownership keys.
///
/// The companion owner vector lets callers keep sibling RAW containers that
/// share one XMP target consistent after a user rating without repeating
/// filesystem probes.
pub fn load_ratings_with_owners<E>(
    entries: &[RatedEntry],
    snapshot: Option<Result<RatingSnapshot, E>>,
) -> (load: RatingLoad)
    ensures
        are_ratings(entries@, usable_snapshot(snapshot), load.0@),
        load.1@ == owner_keys(entries@),
{
    match try_load_ratings_with_owners(entries, snapshot) {
        Ok(load) => load,
        Err(_) => resolve_without_database(entries),
    }
}

/// Resolves initial ratings without suppressing a database snapshot failure.
///
/// Callers that must retry an unavailable recovery journal can use this variant
/// instead of the best-effort [`load_ratings_with_owners`].
///
/// # Errors
///
/// Returns the error of reading a supplied database snapshot.
pub fn try_load_ratings_with_owners<E>(
    entries: &[RatedEntry],
    snapshot: Option<Result<RatingSnapshot, E>>,
) -> (load: Result<RatingLoad, E>)
    ensures
        match load {
            Ok(load) => !(snapshot matches Some(Err(_))) && are_ratings(
                entries@,
                usable_snapshot(snapshot),
                load.0@,
            ) && load.1@ == owner_keys(entries@),
            Err(error) => snapshot == Some(Err::<RatingSnapshot, E>(error)),
        },
{
    match snapshot {
        Some(Ok(snapshot)) => Ok(resolve_rating_snapshot(entries, &snapshot)),
        Some(Err(error)) => Err(error),
        None => Ok(resolve_without_database(entries)),
    }
}

/// Resolves ratings from a snapshot that was read with the global legacy scan,
/// for comparative benchmarks.
///
/// # Errors
///
/// Returns the error of reading the snapshot.
pub fn benchmark_load_ratings_legacy_full_scan<E>(
    entries: &[RatedEntry],
    snapshot: Result<RatingSnapshot, E>,
) -> (load: Result<RatingLoad, E>)
    ensures
        match load {
            Ok(load) => snapshot is Ok && are_ratings(entries@, snapshot->Ok_0@, load.0@)
                && load.1@ == owner_keys(entries@),
            Err(error) => snapshot == Err::<RatingSnapshot, E>(error),
        },
{
    try_load_ratings_with_owners(entries, Some(snapshot))
}

// ---------------------------------------------------------------------------
// Laws
// ---------------------------------------------------------------------------

/// Photos that share one sidecar have one rating.
pub proof fn law_shared_sidecar_has_one_rating(
    entries: Seq<RatedEntry>,
    snapshot: SnapshotModel,
    i: int,
    j: int,
)
    requires
        0 <= i < entries.len(),
        0 <= j < entries.len(),
        entries[i].owner is Some,
        entries[i].owner == entries[j].owner,
    ensures
        rating_of(entries, snapshot, i) == rating_of(entries, snapshot, j),
{
}

/// A current dirty owner row decides the rating of every photo that shares its
/// sidecar, whatever the sidecar says and however new it is.
pub proof fn law_dirty_owner_row_is_authoritative(
    entries: Seq<RatedEntry>,
    snapshot: SnapshotModel,
    i: int,
)
    requires
        0 <= i < entries.len(),
        entries[i].owner is Some,
        owned_row(entries, snapshot, entries[i].owner->0) is Some,
        owned_row(entries, snapshot, entries[i].owner->0)->0.sidecar_dirty,
        !snapshot.legacy,
    ensures
        rating_of(entries, snapshot, i) == owned_row(entries, snapshot, entries[i].owner->0)->0.rating,
{
}

/// A rated sidecar wins over a clean owner row that is not newer than it; an
/// older or unreadable sidecar leaves the row's rating.
pub proof fn law_current_sidecar_wins_over_clean_row(
    entries: Seq<RatedEntry>,
    snapshot: SnapshotModel,
    i: int,
)
    requires
        entries.len() <= usize::MAX,
        0 <= i < entries.len(),
        entries[i].owner is Some,
        owned_row(entries, snapshot, entries[i].owner->0) is Some,
        !owned_row(entries, snapshot, entries[i].owner->0)->0.sidecar_dirty,
        !snapshot.legacy,
    ensures
        ({
            let row = owned_row(entries, snapshot, entries[i].owner->0)->0;
            let first = entries[positions(owner_keys(entries), entries[i].owner->0)[0] as int];
            let sidecar = first.sidecar;
            rating_of(entries, snapshot, i) == if sidecar.rating is Some && sidecar.mtime_ns is Some
                && sidecar.mtime_ns->0 >= row.sidecar_mtime_ns {
                sidecar.rating
            } else {
                row.rating
            }
        }),
{
}

/// An ambiguous dirty history yields no rating: without a current owner row, a
/// current dirty fallback counts only where it is the only fallback.
pub proof fn law_ambiguous_dirty_history_fails_closed(
    entries: Seq<RatedEntry>,
    snapshot: SnapshotModel,
    i: int,
)
    requires
        0 <= i < entries.len(),
        entries[i].owner is Some,
        !snapshot.legacy,
        owned_row(entries, snapshot, entries[i].owner->0) is None,
        any_dirty(
            snapshot,
            current_rows(
                entries,
                snapshot,
                positions(fallback_keys(entries, snapshot), entries[i].owner->0),
            ),
        ),
        positions(fallback_keys(entries, snapshot), entries[i].owner->0).len() != 1,
    ensures
        rating_of(entries, snapshot, i) is None,
{
}

/// Clean fallbacks that disagree yield no rating without a sidecar.
pub proof fn law_conflicting_clean_rows_fail_closed(
    entries: Seq<RatedEntry>,
    snapshot: SnapshotModel,
    listed: Seq<usize>,
    p: int,
    q: int,
    sidecar: Sidecar,
)
    requires
        !any_dirty(snapshot, current_rows(entries, snapshot, listed)),
        0 <= p < current_rows(entries, snapshot, listed).len(),
        0 <= q < current_rows(entries, snapshot, listed).len(),
        snapshot.rows[current_rows(entries, snapshot, listed)[p] as int].rating
            != snapshot.rows[current_rows(entries, snapshot, listed)[q] as int].rating,
        sidecar.mtime_ns is None || sidecar.rating is None,
    ensures
        fallback_rating(entries, snapshot, listed, sidecar) is None,
{
    let current = current_rows(entries, snapshot, listed);
    assert(snapshot.rows[current[p] as int].rating != snapshot.rows[current[0] as int].rating
        || snapshot.rows[current[q] as int].rating != snapshot.rows[current[0] as int].rating);
}

/// Where a legacy history of the same name lacks proof, only the sidecar counts.
pub proof fn law_unproven_history_leaves_only_the_sidecar(
    entries: Seq<RatedEntry>,
    snapshot: SnapshotModel,
    i: int,
)
    requires
        0 <= i < entries.len(),
        entries[i].owner is Some,
        is_rejected(
            snapshot,
            entries[positions(owner_keys(entries), entries[i].owner->0)[0] as int].owner_token,
        ),
    ensures
        ({
            let first = entries[positions(owner_keys(entries), entries[i].owner->0)[0] as int];
            rating_of(entries, snapshot, i) == if first.sidecar.mtime_ns is Some {
                first.sidecar.rating
            } else {
                None
            }
        }),
{
}

proof fn lemma_nothing_is_current(
    entries: Seq<RatedEntry>,
    snapshot: SnapshotModel,
    listed: Seq<usize>,
)
    requires
        forall|p: int|
            0 <= p < listed.len() ==> !claim(
                entries,
                snapshot,
                snapshot.rows[#[trigger] listed[p] as int],
            ).1,
    ensures
        current_rows(entries, snapshot, listed).len() == 0,
    decreases listed.len(),
{
    if listed.len() > 0 {
        assert forall|p: int| 0 <= p < listed.drop_last().len() implies !claim(
            entries,
            snapshot,
            snapshot.rows[#[trigger] listed.drop_last()[p] as int],
        ).1 by {
            assert(listed.drop_last()[p] == listed[p]);
        }
        lemma_nothing_is_current(entries, snapshot, listed.drop_last());
        assert(listed[listed.len() - 1] == listed.last());
    }
}

/// Whether everything that the database says of a photo is about a RAW file since
/// replaced: no row that speaks for its owner, or at its path where it has none,
/// is of a file that is still there.
pub open spec fn only_replaced_rows(
    entries: Seq<RatedEntry>,
    snapshot: SnapshotModel,
    i: int,
) -> bool {
    match entries[i].owner {
        Some(owner) => owned_row(entries, snapshot, owner) is None && forall|k: int|
            0 <= k < snapshot.rows.len() && claim(
                entries,
                snapshot,
                #[trigger] snapshot.rows[k],
            ).0 == Some(owner) ==> !claim(entries, snapshot, snapshot.rows[k]).1,
        None => forall|k: int|
            0 <= k < snapshot.rows.len() && (#[trigger] snapshot.rows[k]).path == entries[i].path
                ==> snapshot.rows[k].identity != entries[i].identity,
    }
}

/// Rows that the database stored for RAW files since replaced, dirty or clean,
/// neither suppress nor replace the sidecar of a photo: it is rated as it would be
/// without a database. A sidecar older than the epoch is left out where a legacy
/// history of the same name lacks proof.
pub proof fn law_row_of_a_replaced_raw_is_ignored(
    entries: Seq<RatedEntry>,
    snapshot: SnapshotModel,
    i: int,
)
    requires
        entries.len() <= usize::MAX,
        snapshot.rows.len() <= usize::MAX,
        0 <= i < entries.len(),
        only_replaced_rows(entries, snapshot, i),
        entries[i].owner matches Some(owner) ==> ({
            let first = entries[positions(owner_keys(entries), owner)[0] as int];
            is_rejected(snapshot, first.owner_token) ==> (first.sidecar.mtime_ns matches Some(mtime)
                ==> mtime >= 0)
        }),
    ensures
        rating_of(entries, snapshot, i) == rating_of(entries, empty_snapshot(), i),
        rating_of(entries, snapshot, i) == match entries[i].owner {
            Some(owner) => sidecar_since(
                entries[positions(owner_keys(entries), owner)[0] as int].sidecar,
                0,
            ),
            None => sidecar_since(entries[i].sidecar, 0),
        },
{
    law_without_database_the_sidecar_decides(entries, i);
    match entries[i].owner {
        Some(owner) => {
            let keys = fallback_keys(entries, snapshot);
            let listed = positions(keys, owner);
            lemma_positions_hold(keys, owner);
            assert forall|p: int| 0 <= p < listed.len() implies !claim(
                entries,
                snapshot,
                snapshot.rows[#[trigger] listed[p] as int],
            ).1 by {
                assert(keys[listed[p] as int] == Some(owner));
            }
            lemma_nothing_is_current(entries, snapshot, listed);
        },
        None => {
            let keys = row_keys(snapshot.rows);
            let listed = positions(keys, entries[i].path);
            lemma_positions_hold(keys, entries[i].path);
            if listed.len() > 0 {
                assert(keys[listed[0] as int] == Some(entries[i].path));
            }
        },
    }
}

/// Without a database, a photo has the rating of the sidecar it shares.
pub proof fn law_without_database_the_sidecar_decides(entries: Seq<RatedEntry>, i: int)
    requires
        0 <= i < entries.len(),
    ensures
        rating_of(entries, empty_snapshot(), i) == match entries[i].owner {
            Some(owner) => sidecar_since(
                entries[positions(owner_keys(entries), owner)[0] as int].sidecar,
                0,
            ),
            None => sidecar_since(entries[i].sidecar, 0),
        },
{
    let snapshot = empty_snapshot();
    assert(fallback_keys(entries, snapshot).len() == 0);
    if let Some(owner) = entries[i].owner {
        assert(positions(fallback_keys(entries, snapshot), owner).len() == 0);
        assert(positions(owned_keys(snapshot.owned), owner).len() == 0);
    }
}

} // verus!
