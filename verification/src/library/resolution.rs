//! Which entry, row or sidecar decides a rating.
//!
//! The laws here speak of the entries of a folder and of the rows of a snapshot
//! one by one, and of the ratings that come of them.

use vstd::prelude::*;

use crate::library::groups::{lemma_positions_complete, lemma_positions_hold, positions};
use crate::library::ratings::{
    any_dirty, benchmark_load_ratings_legacy_full_scan, claim, current_rows, empty_snapshot,
    fallback_keys, is_rejected, is_unproven, load_ratings, load_ratings_with_owners,
    member_with_path, newest_sidecar, owned_keys, owned_row, owner_keys, path_keys, rating_of,
    rating_owner_keys, resolve_rating_snapshot, row_keys, try_load_ratings_with_owners, OwnedRow,
    RatedEntry, RatingLoad, RatingRow, RatingSnapshot, SnapshotModel,
};

verus! {

// ---------------------------------------------------------------------------
// Entries and rows
// ---------------------------------------------------------------------------

/// The rating that a photo got, if it got one.
pub open spec fn rated(load: RatingLoad, i: usize) -> Option<u8> {
    if load.0@.contains_key(i) {
        Some(load.0@[i])
    } else {
        None
    }
}

/// Whether ratings were resolved from entries and a snapshot that a machine can
/// hold.
pub open spec fn is_resolved(
    entries: &[RatedEntry],
    snapshot: &RatingSnapshot,
    load: RatingLoad,
) -> bool {
    &&& entries@.len() <= usize::MAX
    &&& snapshot.by_path@.len() <= usize::MAX
    &&& snapshot.by_owner@.len() <= usize::MAX
    &&& call_ensures(resolve_rating_snapshot, (entries, snapshot), load)
}

/// Whether an entry is the first one of an owner.
pub open spec fn leads(entries: Seq<RatedEntry>, owner: u64, first: int) -> bool {
    &&& 0 <= first < entries.len() && entries[first].owner == Some(owner)
    &&& forall|j: int| 0 <= j < first ==> (#[trigger] entries[j]).owner != Some(owner)
}

/// Whether a legacy history of a name lacks proof of its owner: some row of that
/// name is not spelled physically, or leads to no owner.
pub open spec fn lacks_proof(snapshot: &RatingSnapshot, token: Option<u64>) -> bool {
    &&& snapshot.legacy_owners_require_derivation && token is Some
    &&& exists|k: int|
        0 <= k < snapshot.by_path@.len() && (#[trigger] snapshot.by_path@[k]).token == token && (
        !snapshot.by_path@[k].physical || snapshot.by_path@[k].current_owner is None)
}

/// Whether a row is the first one that was found under an owner.
pub open spec fn is_stored_under(owned: Seq<OwnedRow>, owner: u64, k: int) -> bool {
    &&& 0 <= k < owned.len() && owned[k].owner == owner
    &&& forall|j: int| 0 <= j < k ==> (#[trigger] owned[j]).owner != owner
}

/// Whether an entry has an owner and a path.
pub open spec fn lists(entries: Seq<RatedEntry>, owner: u64, path: u64, j: int) -> bool {
    0 <= j < entries.len() && entries[j].owner == Some(owner) && entries[j].path == path
}

/// Whether an entry is the first one with an owner and a path.
pub open spec fn lists_first(entries: Seq<RatedEntry>, owner: u64, path: u64, j: int) -> bool {
    lists(entries, owner, path, j) && forall|m: int|
        0 <= m < j ==> !#[trigger] lists(entries, owner, path, m)
}

/// Whether a row that was stored under an owner is about a RAW file that is still
/// there: the photo of that owner and path has the rated identity, or, where no
/// such photo is listed, the file that the path or else the owner leads to has.
pub open spec fn is_still_there(entries: Seq<RatedEntry>, owner: u64, row: RatingRow) -> bool {
    ||| exists|j: int| #[trigger]
        lists_first(entries, owner, row.path, j) && entries[j].identity == row.identity
    ||| (forall|j: int| !#[trigger] lists(entries, owner, row.path, j)) && match row.current_owner {
        Some(current) => current == owner && row.current_identity == Some(row.identity),
        None => row.owner_identity == Some(row.identity),
    }
}

/// Whether an entry is the last one with a path.
pub open spec fn lists_last(entries: Seq<RatedEntry>, path: u64, j: int) -> bool {
    &&& 0 <= j < entries.len() && entries[j].path == path
    &&& forall|m: int| j < m < entries.len() ==> (#[trigger] entries[m]).path != path
}

/// Whether no entry has a path.
pub open spec fn is_unlisted(entries: Seq<RatedEntry>, path: u64) -> bool {
    forall|m: int| 0 <= m < entries.len() ==> (#[trigger] entries[m]).path != path
}

/// Whether a row speaks for an owner: that of the photo at its path, or, where none
/// is listed, the one that its path leads to, if the row is dirty or legacy.
pub open spec fn speaks_for(
    entries: Seq<RatedEntry>,
    snapshot: &RatingSnapshot,
    row: RatingRow,
    owner: u64,
) -> bool {
    ||| exists|j: int| #[trigger]
        lists_last(entries, row.path, j) && entries[j].owner == Some(owner)
    ||| is_unlisted(entries, row.path) && (row.sidecar_dirty
        || snapshot.legacy_owners_require_derivation) && row.current_owner == Some(owner)
}

/// Whether the RAW file at a row's path is the one that was rated.
pub open spec fn is_unreplaced(entries: Seq<RatedEntry>, row: RatingRow) -> bool {
    ||| exists|j: int| #[trigger]
        lists_last(entries, row.path, j) && entries[j].identity == row.identity
    ||| is_unlisted(entries, row.path) && row.current_identity == Some(row.identity)
}

/// Whether a row is a fallback for an owner: it speaks for the owner, was stored
/// under no owner, or, in a legacy database, not under this one, and its history
/// does not lack proof.
pub open spec fn falls_back(
    entries: Seq<RatedEntry>,
    snapshot: &RatingSnapshot,
    owner: u64,
    k: int,
) -> bool {
    &&& 0 <= k < snapshot.by_path@.len()
    &&& {
        let row = snapshot.by_path@[k];
        &&& speaks_for(entries, snapshot, row, owner)
        &&& row.sidecar_owner != Some(owner)
        &&& row.sidecar_owner is None || snapshot.legacy_owners_require_derivation
        &&& snapshot.legacy_owners_require_derivation ==> row.physical && row.current_owner is Some
    }
}

/// Whether a row is a fallback for an owner about a RAW file that is still there.
pub open spec fn counts(
    entries: Seq<RatedEntry>,
    snapshot: &RatingSnapshot,
    owner: u64,
    k: int,
) -> bool {
    falls_back(entries, snapshot, owner, k) && is_unreplaced(entries, snapshot.by_path@[k])
}

/// Whether an owner has no stored row about a RAW file that is still there.
pub open spec fn has_no_row(
    entries: Seq<RatedEntry>,
    snapshot: &RatingSnapshot,
    owner: u64,
) -> bool {
    forall|k: int| #[trigger]
        is_stored_under(snapshot.by_owner@, owner, k) ==> !is_still_there(
            entries,
            owner,
            snapshot.by_owner@[k].row,
        )
}

// ---------------------------------------------------------------------------
// Positions
// ---------------------------------------------------------------------------

proof fn lemma_first(keys: Seq<Option<u64>>, key: u64, i: int)
    requires
        keys.len() <= usize::MAX,
        0 <= i < keys.len(),
        keys[i] == Some(key),
        forall|j: int| 0 <= j < i ==> keys[j] != Some(key),
    ensures
        positions(keys, key).len() > 0,
        positions(keys, key)[0] == i,
{
    lemma_positions_complete(keys, key, i);
    lemma_positions_hold(keys, key);
    let at = positions(keys, key)[0];
    assert(keys[at as int] == Some(key));
}

proof fn lemma_last(keys: Seq<Option<u64>>, key: u64, i: int)
    requires
        keys.len() <= usize::MAX,
        0 <= i < keys.len(),
        keys[i] == Some(key),
        forall|j: int| i < j < keys.len() ==> keys[j] != Some(key),
    ensures
        positions(keys, key).len() > 0,
        positions(keys, key).last() == i,
{
    lemma_positions_complete(keys, key, i);
    lemma_positions_hold(keys, key);
    let listed = positions(keys, key);
    let p = choose|p: int| 0 <= p < listed.len() && listed[p] == i as usize;
    let q = listed.len() - 1;
    assert(keys[listed[q] as int] == Some(key));
    if p < q {
        assert(listed[p] < listed[q]);
    }
}

proof fn lemma_none(keys: Seq<Option<u64>>, key: u64)
    requires
        keys.len() <= usize::MAX,
        forall|j: int| 0 <= j < keys.len() ==> keys[j] != Some(key),
    ensures
        positions(keys, key).len() == 0,
{
    lemma_positions_hold(keys, key);
    if positions(keys, key).len() > 0 {
        assert(keys[positions(keys, key)[0] as int] == Some(key));
    }
}

proof fn lemma_some_last(entries: Seq<RatedEntry>, path: u64, n: int)
    requires
        0 <= n <= entries.len(),
        forall|m: int| n <= m < entries.len() ==> (#[trigger] entries[m]).path != path,
    ensures
        is_unlisted(entries, path) || exists|j: int| lists_last(entries, path, j),
    decreases n,
{
    if n > 0 {
        if entries[n - 1].path == path {
            assert(lists_last(entries, path, n - 1));
        } else {
            lemma_some_last(entries, path, n - 1);
        }
    }
}

proof fn lemma_some_first(entries: Seq<RatedEntry>, owner: u64, path: u64, n: int, m: int)
    requires
        0 <= n <= m,
        lists(entries, owner, path, m),
        forall|j: int| 0 <= j < n ==> !#[trigger] lists(entries, owner, path, j),
    ensures
        exists|j: int| lists_first(entries, owner, path, j),
    decreases m - n,
{
    if lists(entries, owner, path, n) {
        assert(lists_first(entries, owner, path, n));
    } else {
        lemma_some_first(entries, owner, path, n + 1, m);
    }
}

proof fn lemma_member(entries: Seq<RatedEntry>, members: Seq<usize>, path: u64, p: int)
    requires
        0 <= p < members.len(),
        entries[members[p] as int].path == path,
        forall|q: int| 0 <= q < p ==> entries[(#[trigger] members[q]) as int].path != path,
    ensures
        member_with_path(entries, members, path) == Some(members[p]),
    decreases members.len(),
{
    if p > 0 {
        let rest = members.subrange(1, members.len() as int);
        assert(entries[members[0] as int].path != path);
        assert(rest[p - 1] == members[p]);
        assert forall|q: int| 0 <= q < p - 1 implies entries[(#[trigger] rest[q]) as int].path
            != path by {
            assert(rest[q] == members[q + 1]);
        }
        lemma_member(entries, rest, path, p - 1);
    }
}

proof fn lemma_no_member(entries: Seq<RatedEntry>, members: Seq<usize>, path: u64)
    requires
        forall|q: int|
            0 <= q < members.len() ==> entries[(#[trigger] members[q]) as int].path != path,
    ensures
        member_with_path(entries, members, path) is None,
    decreases members.len(),
{
    if members.len() > 0 {
        let rest = members.subrange(1, members.len() as int);
        assert(entries[members[0] as int].path != path);
        assert forall|q: int| 0 <= q < rest.len() implies entries[(#[trigger] rest[q]) as int].path
            != path by {
            assert(rest[q] == members[q + 1]);
        }
        lemma_no_member(entries, rest, path);
    }
}

proof fn lemma_owned_row(entries: Seq<RatedEntry>, snapshot: SnapshotModel, owner: u64, k: int)
    requires
        entries.len() <= usize::MAX,
        snapshot.owned.len() <= usize::MAX,
        is_stored_under(snapshot.owned, owner, k),
    ensures
        owned_row(entries, snapshot, owner) == if is_still_there(
            entries,
            owner,
            snapshot.owned[k].row,
        ) {
            Some(snapshot.owned[k].row)
        } else {
            None
        },
{
    let row = snapshot.owned[k].row;
    let keys = owned_keys(snapshot.owned);
    assert forall|j: int| 0 <= j < k implies keys[j] != Some(owner) by {
        assert(snapshot.owned[j].owner != owner);
    }
    lemma_first(keys, owner, k);
    let owners = owner_keys(entries);
    let members = positions(owners, owner);
    lemma_positions_hold(owners, owner);
    if exists|j: int| #[trigger] lists(entries, owner, row.path, j) {
        let m = choose|j: int| #[trigger] lists(entries, owner, row.path, j);
        lemma_some_first(entries, owner, row.path, 0, m);
        let j = choose|j: int| lists_first(entries, owner, row.path, j);
        lemma_positions_complete(owners, owner, j);
        let p = choose|p: int| 0 <= p < members.len() && members[p] == j as usize;
        assert forall|q: int| 0 <= q < p implies entries[(#[trigger] members[q]) as int].path
            != row.path by {
            assert(members[q] < members[p]);
            assert(owners[members[q] as int] == Some(owner));
            assert(!lists(entries, owner, row.path, members[q] as int));
        }
        lemma_member(entries, members, row.path, p);
        assert forall|o: int| #[trigger] lists_first(entries, owner, row.path, o) implies o == j by {
            if o < j {
                assert(!lists(entries, owner, row.path, o));
            } else if j < o {
                assert(!lists(entries, owner, row.path, j));
            }
        }
        assert(lists(entries, owner, row.path, j));
    } else {
        assert forall|q: int| 0 <= q < members.len() implies entries[(
        #[trigger] members[q]) as int].path != row.path by {
            assert(owners[members[q] as int] == Some(owner));
            assert(!lists(entries, owner, row.path, members[q] as int));
        }
        lemma_no_member(entries, members, row.path);
        assert forall|o: int| !#[trigger] lists_first(entries, owner, row.path, o) by {
            assert(!lists(entries, owner, row.path, o));
        }
    }
}

proof fn lemma_some_stored(owned: Seq<OwnedRow>, owner: u64, n: int, m: int)
    requires
        0 <= n <= m < owned.len(),
        owned[m].owner == owner,
        forall|j: int| 0 <= j < n ==> (#[trigger] owned[j]).owner != owner,
    ensures
        exists|k: int| is_stored_under(owned, owner, k),
    decreases m - n,
{
    if owned[n].owner == owner {
        assert(is_stored_under(owned, owner, n));
    } else {
        lemma_some_stored(owned, owner, n + 1, m);
    }
}

proof fn lemma_has_no_row(entries: Seq<RatedEntry>, snapshot: &RatingSnapshot, owner: u64)
    requires
        entries.len() <= usize::MAX,
        snapshot.by_owner@.len() <= usize::MAX,
        has_no_row(entries, snapshot, owner),
    ensures
        owned_row(entries, snapshot@, owner) is None,
{
    let owned = snapshot.by_owner@;
    if exists|m: int| 0 <= m < owned.len() && (#[trigger] owned[m]).owner == owner {
        let m = choose|m: int| 0 <= m < owned.len() && (#[trigger] owned[m]).owner == owner;
        lemma_some_stored(owned, owner, 0, m);
        let k = choose|k: int| is_stored_under(owned, owner, k);
        lemma_owned_row(entries, snapshot@, owner, k);
    } else {
        let keys = owned_keys(owned);
        assert forall|j: int| 0 <= j < keys.len() implies keys[j] != Some(owner) by {
            assert(owned[j].owner != owner);
        }
        lemma_none(keys, owner);
    }
}

proof fn lemma_rejected(snapshot: &RatingSnapshot, token: Option<u64>)
    ensures
        is_rejected(snapshot@, token) == lacks_proof(snapshot, token),
{
    if lacks_proof(snapshot, token) {
        let k = choose|k: int|
            0 <= k < snapshot.by_path@.len() && (#[trigger] snapshot.by_path@[k]).token == token && (
            !snapshot.by_path@[k].physical || snapshot.by_path@[k].current_owner is None);
        assert(is_unproven(snapshot@.rows[k]) && snapshot@.rows[k].token == token);
    }
}

proof fn lemma_leader(entries: Seq<RatedEntry>, owner: u64, first: int)
    requires
        entries.len() <= usize::MAX,
        leads(entries, owner, first),
    ensures
        positions(owner_keys(entries), owner).len() > 0,
        positions(owner_keys(entries), owner)[0] == first,
{
    let keys = owner_keys(entries);
    assert forall|j: int| 0 <= j < first implies keys[j] != Some(owner) by {
        assert(entries[j].owner != Some(owner));
    }
    lemma_first(keys, owner, first);
}

proof fn lemma_rated(entries: &[RatedEntry], snapshot: &RatingSnapshot, load: RatingLoad, i: usize)
    requires
        is_resolved(entries, snapshot, load),
        i < entries@.len(),
    ensures
        rated(load, i) == rating_of(entries@, snapshot@, i as int),
{
    assert(load.0@.contains_key(i) <==> rating_of(entries@, snapshot@, i as int) is Some);
}

// ---------------------------------------------------------------------------
// Photos with an owner
// ---------------------------------------------------------------------------

/// A row that was stored under the owner of a photo, about a RAW file that is still
/// there, decides its rating, wherever the row stands: where it is dirty the row's
/// rating is the photo's, and where it is clean the sidecar's is, if the sidecar is
/// at least as new as the row knew it, else the row's. The sidecar is that of the
/// first photo of the owner.
pub proof fn law_row_of_the_owner_decides(
    entries: &[RatedEntry],
    snapshot: &RatingSnapshot,
    load: RatingLoad,
    i: usize,
    first: int,
    k: int,
)
    requires
        is_resolved(entries, snapshot, load),
        i < entries@.len(),
        entries@[i as int].owner matches Some(owner) && leads(entries@, owner, first)
            && is_stored_under(snapshot.by_owner@, owner, k) && is_still_there(
            entries@,
            owner,
            snapshot.by_owner@[k].row,
        ),
        !lacks_proof(snapshot, entries@[first].owner_token),
    ensures
        ({
            let row = snapshot.by_owner@[k].row;
            let sidecar = entries@[first].sidecar;
            let newer = sidecar.mtime_ns matches Some(mtime) && mtime >= row.sidecar_mtime_ns;
            rated(load, i) == if !row.sidecar_dirty && newer && sidecar.rating is Some {
                sidecar.rating
            } else {
                row.rating
            }
        }),
{
    let owner = entries@[i as int].owner->0;
    lemma_rated(entries, snapshot, load, i);
    lemma_leader(entries@, owner, first);
    lemma_rejected(snapshot, entries@[first].owner_token);
    lemma_owned_row(entries@, snapshot@, owner, k);
}

/// A listed photo of the owner with the row's path and identity shows that the row
/// is about a RAW file that is still there, if no other photo of the owner has that
/// path.
pub proof fn law_listed_raw_is_still_there(
    entries: Seq<RatedEntry>,
    owner: u64,
    row: RatingRow,
    j: int,
)
    requires
        0 <= j < entries.len(),
        entries[j].owner == Some(owner),
        entries[j].path == row.path,
        forall|m: int| 0 <= m < entries.len() && m != j ==> (#[trigger] entries[m]).path != row.path,
    ensures
        is_still_there(entries, owner, row) <==> entries[j].identity == row.identity,
{
    assert forall|m: int| 0 <= m < j implies !#[trigger] lists(entries, owner, row.path, m) by {
        assert(entries[m].path != row.path);
    }
    assert(lists_first(entries, owner, row.path, j));
    assert forall|m: int| #[trigger] lists_first(entries, owner, row.path, m) implies m == j by {
        if m != j {
            assert(entries[m].path != row.path);
        }
    }
    assert(lists(entries, owner, row.path, j));
}

/// Where a legacy history of the owner's name lacks proof, a photo has the rating
/// of the owner's sidecar, whatever the database holds, if there is such a file.
pub proof fn law_unproven_names_leave_the_sidecar(
    entries: &[RatedEntry],
    snapshot: &RatingSnapshot,
    load: RatingLoad,
    i: usize,
    first: int,
)
    requires
        is_resolved(entries, snapshot, load),
        i < entries@.len(),
        entries@[i as int].owner matches Some(owner) && leads(entries@, owner, first),
        lacks_proof(snapshot, entries@[first].owner_token),
    ensures
        rated(load, i) == if entries@[first].sidecar.mtime_ns is Some {
            entries@[first].sidecar.rating
        } else {
            None
        },
{
    let owner = entries@[i as int].owner->0;
    lemma_rated(entries, snapshot, load, i);
    lemma_leader(entries@, owner, first);
    lemma_rejected(snapshot, entries@[first].owner_token);
}

proof fn lemma_claim(entries: Seq<RatedEntry>, snapshot: &RatingSnapshot, row: RatingRow, owner: u64)
    requires
        entries.len() <= usize::MAX,
    ensures
        claim(entries, snapshot@, row).0 == Some(owner) <==> speaks_for(
            entries,
            snapshot,
            row,
            owner,
        ),
        speaks_for(entries, snapshot, row, owner) ==> claim(entries, snapshot@, row).1
            == is_unreplaced(entries, row),
{
    let keys = path_keys(entries);
    lemma_some_last(entries, row.path, entries.len() as int);
    if is_unlisted(entries, row.path) {
        assert forall|j: int| 0 <= j < keys.len() implies keys[j] != Some(row.path) by {
            assert(entries[j].path != row.path);
        }
        lemma_none(keys, row.path);
        assert forall|j: int| !#[trigger] lists_last(entries, row.path, j) by {
            if 0 <= j < entries.len() {
                assert(entries[j].path != row.path);
            }
        }
    } else {
        let j = choose|j: int| lists_last(entries, row.path, j);
        assert forall|m: int| j < m < keys.len() implies keys[m] != Some(row.path) by {
            assert(entries[m].path != row.path);
        }
        lemma_last(keys, row.path, j);
        assert forall|m: int| #[trigger] lists_last(entries, row.path, m) implies m == j by {
            if m < j {
                assert(entries[j].path != row.path);
            } else if j < m {
                assert(entries[m].path != row.path);
            }
        }
    }
}

proof fn lemma_falls_back(
    entries: Seq<RatedEntry>,
    snapshot: &RatingSnapshot,
    owner: u64,
    k: int,
)
    requires
        entries.len() <= usize::MAX,
        snapshot.by_path@.len() <= usize::MAX,
    ensures
        ({
            let listed = positions(fallback_keys(entries, snapshot@), owner);
            &&& falls_back(entries, snapshot, owner, k) ==> listed.contains(k as usize)
            &&& 0 <= k < listed.len() ==> listed[k] < snapshot.by_path@.len() && falls_back(
                entries,
                snapshot,
                owner,
                listed[k] as int,
            )
        }),
{
    let keys = fallback_keys(entries, snapshot@);
    let listed = positions(keys, owner);
    lemma_positions_hold(keys, owner);
    if falls_back(entries, snapshot, owner, k) {
        lemma_claim(entries, snapshot, snapshot.by_path@[k], owner);
        assert(keys[k] == Some(owner));
        lemma_positions_complete(keys, owner, k);
    }
    if 0 <= k < listed.len() {
        let at = listed[k] as int;
        assert(keys[at] == Some(owner));
        lemma_claim(entries, snapshot, snapshot.by_path@[at], owner);
    }
}

proof fn lemma_current(
    entries: Seq<RatedEntry>,
    snapshot: SnapshotModel,
    listed: Seq<usize>,
    at: usize,
)
    ensures
        current_rows(entries, snapshot, listed).contains(at) <==> listed.contains(at) && claim(
            entries,
            snapshot,
            snapshot.rows[at as int],
        ).1,
    decreases listed.len(),
{
    if listed.len() > 0 {
        let rest = listed.drop_last();
        let before = current_rows(entries, snapshot, rest);
        let all = current_rows(entries, snapshot, listed);
        lemma_current(entries, snapshot, rest, at);
        assert(listed.contains(at) <==> rest.contains(at) || listed.last() == at) by {
            if rest.contains(at) {
                let p = choose|p: int| 0 <= p < rest.len() && rest[p] == at;
                assert(listed[p] == at);
            }
            if listed.contains(at) && listed.last() != at {
                let p = choose|p: int| 0 <= p < listed.len() && listed[p] == at;
                assert(rest[p] == at);
            }
            assert(listed[listed.len() - 1] == listed.last());
        }
        if claim(entries, snapshot, snapshot.rows[listed.last() as int]).1 {
            if before.contains(at) {
                let p = choose|p: int| 0 <= p < before.len() && before[p] == at;
                assert(all[p] == at);
            }
            assert(all[all.len() - 1] == listed.last());
            if all.contains(at) && listed.last() != at {
                let p = choose|p: int| 0 <= p < all.len() && all[p] == at;
                assert(before[p] == at);
            }
        }
    } else {
        assert(!listed.contains(at));
    }
}

proof fn lemma_counts(entries: Seq<RatedEntry>, snapshot: &RatingSnapshot, owner: u64, k: int)
    requires
        entries.len() <= usize::MAX,
        snapshot.by_path@.len() <= usize::MAX,
    ensures
        ({
            let listed = positions(fallback_keys(entries, snapshot@), owner);
            let current = current_rows(entries, snapshot@, listed);
            &&& counts(entries, snapshot, owner, k) ==> current.contains(k as usize)
            &&& 0 <= k < current.len() ==> current[k] < snapshot.by_path@.len() && counts(
                entries,
                snapshot,
                owner,
                current[k] as int,
            )
        }),
{
    let listed = positions(fallback_keys(entries, snapshot@), owner);
    let current = current_rows(entries, snapshot@, listed);
    if counts(entries, snapshot, owner, k) {
        lemma_falls_back(entries, snapshot, owner, k);
        lemma_claim(entries, snapshot, snapshot.by_path@[k], owner);
        lemma_current(entries, snapshot@, listed, k as usize);
    }
    if 0 <= k < current.len() {
        let at = current[k];
        assert(current.contains(at));
        lemma_current(entries, snapshot@, listed, at);
        let p = choose|p: int| 0 <= p < listed.len() && listed[p] == at;
        lemma_falls_back(entries, snapshot, owner, p);
        lemma_claim(entries, snapshot, snapshot.by_path@[at as int], owner);
    }
}

proof fn lemma_newest(snapshot: SnapshotModel, listed: Seq<usize>)
    ensures
        forall|p: int|
            0 <= p < listed.len() ==> newest_sidecar(snapshot, listed)
                >= snapshot.rows[(#[trigger] listed[p]) as int].sidecar_mtime_ns,
        listed.len() > 0 ==> exists|p: int|
            0 <= p < listed.len() && newest_sidecar(snapshot, listed)
                == snapshot.rows[(#[trigger] listed[p]) as int].sidecar_mtime_ns,
        listed.len() == 0 ==> newest_sidecar(snapshot, listed) == 0,
    decreases listed.len(),
{
    if listed.len() > 0 {
        let rest = listed.drop_last();
        lemma_newest(snapshot, rest);
        assert forall|p: int| 0 <= p < listed.len() implies newest_sidecar(snapshot, listed)
            >= snapshot.rows[(#[trigger] listed[p]) as int].sidecar_mtime_ns by {
            if p < rest.len() {
                assert(rest[p] == listed[p]);
            }
        }
        if listed.len() > 1 && snapshot.rows[listed.last() as int].sidecar_mtime_ns
            <= newest_sidecar(snapshot, rest) {
            let p = choose|p: int|
                0 <= p < rest.len() && newest_sidecar(snapshot, rest)
                    == snapshot.rows[(#[trigger] rest[p]) as int].sidecar_mtime_ns;
            assert(rest[p] == listed[p]);
        } else {
            assert(listed[listed.len() - 1] == listed.last());
        }
    }
}

/// Without a row of the owner, a dirty fallback about a RAW file that is still there
/// decides the rating where it is the only fallback, and leaves no rating where it
/// is one of several.
pub proof fn law_dirty_fallback_counts_alone(
    entries: &[RatedEntry],
    snapshot: &RatingSnapshot,
    load: RatingLoad,
    i: usize,
    first: int,
    k: int,
)
    requires
        is_resolved(entries, snapshot, load),
        i < entries@.len(),
        entries@[i as int].owner matches Some(owner) && leads(entries@, owner, first)
            && has_no_row(entries@, snapshot, owner) && counts(entries@, snapshot, owner, k),
        snapshot.by_path@[k].sidecar_dirty,
        !lacks_proof(snapshot, entries@[first].owner_token),
    ensures
        rated(load, i) == if forall|m: int| #[trigger]
            falls_back(entries@, snapshot, entries@[i as int].owner->0, m) ==> m == k {
            snapshot.by_path@[k].rating
        } else {
            None
        },
{
    let owner = entries@[i as int].owner->0;
    let listed = positions(fallback_keys(entries@, snapshot@), owner);
    let current = current_rows(entries@, snapshot@, listed);
    lemma_rated(entries, snapshot, load, i);
    lemma_leader(entries@, owner, first);
    lemma_rejected(snapshot, entries@[first].owner_token);
    lemma_has_no_row(entries@, snapshot, owner);
    lemma_counts(entries@, snapshot, owner, k);
    let p = choose|p: int| 0 <= p < current.len() && current[p] == k as usize;
    assert(snapshot@.rows[current[p] as int].sidecar_dirty);
    assert(any_dirty(snapshot@, current));
    lemma_falls_back(entries@, snapshot, owner, k);
    lemma_positions_hold(fallback_keys(entries@, snapshot@), owner);
    let q = choose|q: int| 0 <= q < listed.len() && listed[q] == k as usize;
    if forall|m: int| #[trigger] falls_back(entries@, snapshot, owner, m) ==> m == k {
        if listed.len() > 1 {
            lemma_falls_back(entries@, snapshot, owner, 0);
            lemma_falls_back(entries@, snapshot, owner, 1);
            assert(listed[0] < listed[1]);
        }
    } else {
        let m = choose|m: int| #[trigger] falls_back(entries@, snapshot, owner, m) && m != k;
        lemma_falls_back(entries@, snapshot, owner, m);
        let r = choose|r: int| 0 <= r < listed.len() && listed[r] == m as usize;
    }
}

/// Whether a sidecar is at least as new as every counting fallback knew it, or as
/// the epoch where none counts.
pub open spec fn is_newest(
    entries: Seq<RatedEntry>,
    snapshot: &RatingSnapshot,
    owner: u64,
    mtime: int,
) -> bool {
    &&& forall|k: int| #[trigger]
        counts(entries, snapshot, owner, k) ==> mtime >= snapshot.by_path@[k].sidecar_mtime_ns
    &&& (forall|k: int| !#[trigger] counts(entries, snapshot, owner, k)) ==> mtime >= 0
}

/// Without a row of the owner and without a dirty fallback, the owner's sidecar
/// decides where it is at least as new as the fallbacks knew it. Else the fallbacks
/// decide that are about RAW files still there, where they agree; where they do not,
/// or there are none, the photo has no rating.
pub proof fn law_clean_fallbacks_count_where_they_agree(
    entries: &[RatedEntry],
    snapshot: &RatingSnapshot,
    load: RatingLoad,
    i: usize,
    first: int,
    k: int,
)
    requires
        is_resolved(entries, snapshot, load),
        i < entries@.len(),
        entries@[i as int].owner matches Some(owner) && leads(entries@, owner, first)
            && has_no_row(entries@, snapshot, owner) && forall|m: int| #[trigger]
            counts(entries@, snapshot, owner, m) ==> !snapshot.by_path@[m].sidecar_dirty,
        !lacks_proof(snapshot, entries@[first].owner_token),
    ensures
        ({
            let owner = entries@[i as int].owner->0;
            let sidecar = entries@[first].sidecar;
            let newest = sidecar.mtime_ns matches Some(mtime) && is_newest(
                entries@,
                snapshot,
                owner,
                mtime as int,
            );
            &&& newest && sidecar.rating is Some ==> rated(load, i) == sidecar.rating
            &&& !(newest && sidecar.rating is Some) ==> {
                &&& (forall|m: int| !#[trigger] counts(entries@, snapshot, owner, m)) ==> rated(
                    load,
                    i,
                ) is None
                &&& counts(entries@, snapshot, owner, k) ==> rated(load, i) == if forall|m: int|
                    #[trigger]
                    counts(entries@, snapshot, owner, m) ==> snapshot.by_path@[m].rating
                        == snapshot.by_path@[k].rating {
                    snapshot.by_path@[k].rating
                } else {
                    None
                }
            }
        }),
{
    let owner = entries@[i as int].owner->0;
    let sidecar = entries@[first].sidecar;
    let listed = positions(fallback_keys(entries@, snapshot@), owner);
    let current = current_rows(entries@, snapshot@, listed);
    lemma_rated(entries, snapshot, load, i);
    lemma_leader(entries@, owner, first);
    lemma_rejected(snapshot, entries@[first].owner_token);
    lemma_has_no_row(entries@, snapshot, owner);
    assert forall|p: int| 0 <= p < current.len() implies counts(
        entries@,
        snapshot,
        owner,
        (#[trigger] current[p]) as int,
    ) by {
        lemma_counts(entries@, snapshot, owner, p);
    }
    assert forall|m: int| #[trigger] counts(entries@, snapshot, owner, m) implies current.contains(
        m as usize,
    ) by {
        lemma_counts(entries@, snapshot, owner, m);
    }
    assert(!any_dirty(snapshot@, current));
    lemma_newest(snapshot@, current);
    if let Some(mtime) = sidecar.mtime_ns {
        assert(mtime >= newest_sidecar(snapshot@, current) <==> is_newest(
            entries@,
            snapshot,
            owner,
            mtime as int,
        )) by {
            if mtime >= newest_sidecar(snapshot@, current) {
                assert forall|m: int| #[trigger] counts(entries@, snapshot, owner, m) implies mtime
                    >= snapshot.by_path@[m].sidecar_mtime_ns by {
                    let p = choose|p: int| 0 <= p < current.len() && current[p] == m as usize;
                    assert(current[p] as int == m);
                }
                if forall|m: int| !#[trigger] counts(entries@, snapshot, owner, m) {
                    if current.len() > 0 {
                        assert(counts(entries@, snapshot, owner, current[0] as int));
                    }
                }
            } else if current.len() > 0 {
                let p = choose|p: int|
                    0 <= p < current.len() && newest_sidecar(snapshot@, current)
                        == snapshot@.rows[(#[trigger] current[p]) as int].sidecar_mtime_ns;
                assert(counts(entries@, snapshot, owner, current[p] as int));
            } else {
                assert forall|m: int| !#[trigger] counts(entries@, snapshot, owner, m) by {
                    if counts(entries@, snapshot, owner, m) {
                        assert(current.contains(m as usize));
                    }
                }
            }
        }
    }
    if forall|m: int| !#[trigger] counts(entries@, snapshot, owner, m) {
        if current.len() > 0 {
            assert(counts(entries@, snapshot, owner, current[0] as int));
        }
    }
    if counts(entries@, snapshot, owner, k) {
        let p = choose|p: int| 0 <= p < current.len() && current[p] == k as usize;
        assert(current[p] as int == k);
        if forall|m: int| #[trigger]
            counts(entries@, snapshot, owner, m) ==> snapshot.by_path@[m].rating
                == snapshot.by_path@[k].rating {
            assert forall|q: int| 0 <= q < current.len() implies snapshot@.rows[(
            #[trigger] current[q]) as int].rating == snapshot@.rows[current[0] as int].rating by {
                assert(counts(entries@, snapshot, owner, current[q] as int));
                assert(counts(entries@, snapshot, owner, current[0] as int));
            }
            assert(counts(entries@, snapshot, owner, current[0] as int));
        } else {
            let m = choose|m: int| #[trigger]
                counts(entries@, snapshot, owner, m) && snapshot.by_path@[m].rating
                    != snapshot.by_path@[k].rating;
            let q = choose|q: int| 0 <= q < current.len() && current[q] == m as usize;
            assert(current[q] as int == m);
        }
    }
}

// ---------------------------------------------------------------------------
// Photos without an owner
// ---------------------------------------------------------------------------

/// Whether a row is the first one with a path.
pub open spec fn is_stored_at(rows: Seq<RatingRow>, path: u64, k: int) -> bool {
    &&& 0 <= k < rows.len() && rows[k].path == path
    &&& forall|j: int| 0 <= j < k ==> (#[trigger] rows[j]).path != path
}

/// A photo whose owner cannot be resolved is rated by the first row at its path, if
/// that row is about its RAW file and its history does not lack proof: by the row
/// where it is dirty and rated, or where the photo's own sidecar is older than the
/// row knew it or holds no rating, else by that sidecar. Without such a row the
/// sidecar decides.
pub proof fn law_row_of_the_path_decides_without_an_owner(
    entries: &[RatedEntry],
    snapshot: &RatingSnapshot,
    load: RatingLoad,
    i: usize,
    k: int,
)
    requires
        is_resolved(entries, snapshot, load),
        i < entries@.len(),
        entries@[i as int].owner is None,
    ensures
        ({
            let entry = entries@[i as int];
            let sidecar = entry.sidecar;
            let row = snapshot.by_path@[k];
            let trusted = row.identity == entry.identity && (
            snapshot.legacy_owners_require_derivation ==> row.physical && row.current_owner is Some
                && !lacks_proof(snapshot, row.token));
            let newer = sidecar.mtime_ns matches Some(mtime) && mtime >= row.sidecar_mtime_ns;
            let dated = sidecar.mtime_ns matches Some(mtime) && mtime >= 0;
            &&& is_stored_at(snapshot.by_path@, entry.path, k) && trusted ==> rated(load, i)
                == if !(row.sidecar_dirty && row.rating is Some) && newer && sidecar.rating
                is Some {
                sidecar.rating
            } else {
                row.rating
            }
            &&& (is_stored_at(snapshot.by_path@, entry.path, k) && !trusted) || (forall|m: int|
                0 <= m < snapshot.by_path@.len() ==> (#[trigger] snapshot.by_path@[m]).path
                    != entry.path) ==> rated(load, i) == if dated {
                sidecar.rating
            } else {
                None
            }
        }),
{
    let entry = entries@[i as int];
    let rows = snapshot.by_path@;
    let keys = row_keys(rows);
    lemma_rated(entries, snapshot, load, i);
    if is_stored_at(rows, entry.path, k) {
        assert forall|j: int| 0 <= j < k implies keys[j] != Some(entry.path) by {
            assert(rows[j].path != entry.path);
        }
        lemma_first(keys, entry.path, k);
        lemma_rejected(snapshot, rows[k].token);
    }
    if forall|m: int| 0 <= m < rows.len() ==> (#[trigger] rows[m]).path != entry.path {
        assert forall|j: int| 0 <= j < keys.len() implies keys[j] != Some(entry.path) by {
            assert(rows[j].path != entry.path);
        }
        lemma_none(keys, entry.path);
    }
}

// ---------------------------------------------------------------------------
// Loading
// ---------------------------------------------------------------------------

/// Only photos of the folder are rated, and each one's owner is handed on.
pub proof fn law_only_photos_are_rated(
    entries: &[RatedEntry],
    snapshot: &RatingSnapshot,
    load: RatingLoad,
    i: usize,
)
    requires
        is_resolved(entries, snapshot, load),
    ensures
        i >= entries@.len() ==> rated(load, i) is None,
        load.1@.len() == entries@.len(),
        i < entries@.len() ==> load.1@[i as int] == entries@[i as int].owner,
{
}

/// However ratings are loaded, a snapshot that was read gives what it resolves to.
/// Without one, or after a failed read, they are those of a database without rows;
/// only the loader that may fail hands the failure on.
pub proof fn law_loaders_agree<E>(
    entries: &[RatedEntry],
    read: Option<Result<RatingSnapshot, E>>,
    snapshot: RatingSnapshot,
    load: RatingLoad,
    ratings: std::collections::HashMap<usize, u8>,
    owned: RatingLoad,
    tried: Result<RatingLoad, E>,
    i: usize,
)
    requires
        is_resolved(entries, &snapshot, load),
        read matches Some(Ok(given)) ==> given == snapshot,
        !(read matches Some(Ok(_))) ==> snapshot.by_path@.len() == 0 && snapshot.by_owner@.len()
            == 0 && !snapshot.legacy_owners_require_derivation,
        call_ensures(load_ratings::<E>, (entries, read), ratings),
        call_ensures(load_ratings_with_owners::<E>, (entries, read), owned),
        call_ensures(try_load_ratings_with_owners::<E>, (entries, read), tried),
    ensures
        ratings@ == load.0@,
        owned.0@ == load.0@,
        owned.1@ == load.1@,
        read matches Some(Err(_)) <==> tried is Err,
        tried matches Err(error) ==> read == Some(Err::<RatingSnapshot, E>(error)),
        tried matches Ok(tried) ==> tried.0@ == load.0@ && tried.1@ == load.1@,
{
    if !(read matches Some(Ok(_))) {
        assert(snapshot@.rows =~= empty_snapshot().rows);
        assert(snapshot@.owned =~= empty_snapshot().owned);
        assert(snapshot@ == empty_snapshot());
    }
    lemma_same_ratings(entries@, snapshot@, ratings@, load.0@);
    lemma_same_ratings(entries@, snapshot@, owned.0@, load.0@);
    if let Ok(tried) = tried {
        lemma_same_ratings(entries@, snapshot@, tried.0@, load.0@);
    }
}

proof fn lemma_same_ratings(
    entries: Seq<RatedEntry>,
    snapshot: SnapshotModel,
    a: Map<usize, u8>,
    b: Map<usize, u8>,
)
    requires
        crate::library::ratings::are_ratings(entries, snapshot, a),
        crate::library::ratings::are_ratings(entries, snapshot, b),
    ensures
        a == b,
{
    assert forall|i: usize| a.contains_key(i) == b.contains_key(i) && (a.contains_key(i) ==> a[i]
        == b[i]) by {}
    assert(a =~= b);
}

/// Owners are listed entry by entry, and the full scan loads what the loader that may
/// fail does of the same snapshot.
pub proof fn law_owners_are_listed_entry_by_entry<E>(
    entries: &[RatedEntry],
    owners: Vec<Option<u64>>,
    snapshot: Result<RatingSnapshot, E>,
    scanned: Result<RatingLoad, E>,
    tried: Result<RatingLoad, E>,
    i: int,
)
    requires
        call_ensures(rating_owner_keys, (entries,), owners),
        call_ensures(benchmark_load_ratings_legacy_full_scan::<E>, (entries, snapshot), scanned),
        call_ensures(try_load_ratings_with_owners::<E>, (entries, Some(snapshot)), tried),
    ensures
        owners@.len() == entries@.len(),
        0 <= i < entries@.len() ==> owners@[i] == entries@[i].owner,
        scanned is Ok <==> tried is Ok,
        scanned is Ok <==> snapshot is Ok,
        scanned matches Ok(load) ==> load.0@ == tried->Ok_0.0@ && load.1@ == owners@,
        scanned matches Err(error) ==> tried == Err::<RatingLoad, E>(error),
{
    if let Ok(load) = scanned {
        lemma_same_ratings(entries@, snapshot->Ok_0@, load.0@, tried->Ok_0.0@);
    }
}

} // verus!
