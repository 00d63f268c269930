//! Scheduler identities and the tables keyed by them.

use std::collections::HashMap;

use vstd::prelude::*;

use crate::types::Tier;

verus! {

broadcast use vstd::std_specs::hash::group_hash_axioms;

/// Scheduler identity as `(folder index, render tier)`.
pub type JobId = (usize, Tier);

/// Returns whether two identities are the same.
pub fn same_id(a: JobId, b: JobId) -> (same: bool)
    ensures
        same == (a == b),
{
    a.0 == b.0 && a.1 == b.1
}

/// Number of a tier inside an identity key.
pub open spec fn tier_rank(tier: Tier) -> int {
    match tier {
        Tier::Thumb => 0,
        Tier::Browse => 1,
        Tier::Full => 2,
    }
}

/// The integer under which a table files an identity.
pub open spec fn id_key(id: JobId) -> u128 {
    (4 * id.0 + tier_rank(id.1)) as u128
}

/// Different identities have different keys.
pub proof fn law_id_key_is_injective(a: JobId, b: JobId)
    ensures
        id_key(a) == id_key(b) ==> a == b,
{
    assert(4 * a.0 + tier_rank(a.1) <= 4 * usize::MAX + 2);
    assert(4 * b.0 + tier_rank(b.1) <= 4 * usize::MAX + 2);
}

fn key_of(id: JobId) -> (key: u128)
    ensures
        key == id_key(id),
{
    let rank: u128 = match id.1 {
        Tier::Thumb => 0,
        Tier::Browse => 1,
        Tier::Full => 2,
    };
    (id.0 as u128) * 4 + rank
}

/// A table from identities to values.
pub struct IdMap<V> {
    table: HashMap<u128, V>,
}

impl<V> View for IdMap<V> {
    type V = Map<JobId, V>;

    closed spec fn view(&self) -> Map<JobId, V> {
        Map::new(
            |id: JobId| self.table@.contains_key(id_key(id)),
            |id: JobId| self.table@[id_key(id)],
        )
    }
}

impl<V> IdMap<V> {
    /// Whether every key of the table files an identity.
    pub closed spec fn wf(&self) -> bool {
        forall|key: u128| #[trigger]
            self.table@.contains_key(key) ==> exists|id: JobId| id_key(id) == key
    }

    /// Creates an empty table.
    pub fn new() -> (map: Self)
        ensures
            map@ == Map::<JobId, V>::empty(),
            map.wf(),
    {
        let map = IdMap { table: HashMap::new() };
        assert(map@ =~= Map::<JobId, V>::empty());
        map
    }

    /// Borrows the value of an identity.
    pub fn get(&self, id: JobId) -> (value: Option<&V>)
        ensures
            match value {
                Some(v) => self@.contains_key(id) && *v == self@[id],
                None => !self@.contains_key(id),
            },
    {
        self.table.get(&key_of(id))
    }

    /// Returns whether an identity has a value.
    pub fn contains(&self, id: JobId) -> (found: bool)
        ensures
            found == self@.contains_key(id),
    {
        self.table.contains_key(&key_of(id))
    }

    /// Files a value under an identity, replacing what was there.
    pub fn insert(&mut self, id: JobId, value: V)
        ensures
            final(self)@ == old(self)@.insert(id, value),
            old(self).wf() ==> final(self).wf(),
    {
        self.table.insert(key_of(id), value);
        assert forall|other: JobId| id_key(other) == id_key(id) implies other == id by {
            law_id_key_is_injective(other, id);
        }
        assert(self@ =~= old(self)@.insert(id, value));
    }

    /// Forgets an identity.
    pub fn remove(&mut self, id: JobId)
        ensures
            final(self)@ == old(self)@.remove(id),
            old(self).wf() ==> final(self).wf(),
    {
        self.table.remove(&key_of(id));
        assert forall|other: JobId| id_key(other) == id_key(id) implies other == id by {
            law_id_key_is_injective(other, id);
        }
        assert(self@ =~= old(self)@.remove(id));
    }

    /// Returns whether no identity has a value.
    pub fn is_empty(&self) -> (empty: bool)
        requires
            self.wf(),
        ensures
            empty == (self@ == Map::<JobId, V>::empty()),
    {
        let empty = self.table.is_empty();
        proof {
            if empty {
                assert(self@ =~= Map::<JobId, V>::empty());
            } else {
                let key = self.table@.dom().choose();
                assert(self.table@.dom().contains(key)) by {
                    if forall|k: u128| !self.table@.dom().contains(k) {
                        assert(self.table@.dom() =~= Set::empty());
                    }
                }
                let id = choose|id: JobId| id_key(id) == key;
                assert(self@.contains_key(id));
            }
        }
        empty
    }

    /// Forgets everything.
    pub fn clear(&mut self)
        ensures
            final(self)@ == Map::<JobId, V>::empty(),
            final(self).wf(),
    {
        self.table.clear();
        assert(self@ =~= Map::<JobId, V>::empty());
    }
}

} // verus!
