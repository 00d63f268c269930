//! Positions of equal keys in a list.

use std::collections::HashMap;

use vstd::prelude::*;

verus! {

/// The positions of a key in a list of optional keys, in order.
pub open spec fn positions(keys: Seq<Option<u64>>, key: u64) -> Seq<usize>
    decreases keys.len(),
{
    if keys.len() == 0 {
        seq![]
    } else {
        let before = positions(keys.drop_last(), key);
        if keys.last() == Some(key) {
            before.push((keys.len() - 1) as usize)
        } else {
            before
        }
    }
}

/// Every listed position holds the key, and the positions ascend.
pub proof fn lemma_positions_hold(keys: Seq<Option<u64>>, key: u64)
    requires
        keys.len() <= usize::MAX,
    ensures
        positions(keys, key).len() <= keys.len(),
        forall|p: int|
            0 <= p < positions(keys, key).len() ==> (#[trigger] positions(keys, key)[p])
                < keys.len() && keys[positions(keys, key)[p] as int] == Some(key),
        forall|p: int, q: int|
            0 <= p < q < positions(keys, key).len() ==> positions(keys, key)[p] < positions(
                keys,
                key,
            )[q],
    decreases keys.len(),
{
    if keys.len() > 0 {
        let rest = keys.drop_last();
        lemma_positions_hold(rest, key);
        let before = positions(rest, key);
        assert forall|p: int| 0 <= p < before.len() implies keys[(#[trigger] before[p]) as int]
            == Some(key) by {
            assert(rest[before[p] as int] == Some(key));
        }
    }
}

/// Every position that holds the key is listed.
pub proof fn lemma_positions_complete(keys: Seq<Option<u64>>, key: u64, i: int)
    requires
        keys.len() <= usize::MAX,
        0 <= i < keys.len(),
        keys[i] == Some(key),
    ensures
        positions(keys, key).contains(i as usize),
        positions(keys, key).len() > 0,
        positions(keys, key)[0] <= i,
    decreases keys.len(),
{
    let rest = keys.drop_last();
    let before = positions(rest, key);
    let all = positions(keys, key);
    if i == keys.len() - 1 {
        assert(all[all.len() - 1] == i as usize);
        lemma_positions_hold(keys, key);
    } else {
        lemma_positions_complete(rest, key, i);
        let p = choose|p: int| 0 <= p < before.len() && before[p] == i as usize;
        assert(all[p] == i as usize);
        assert(all[0] == before[0]);
    }
}

/// The positions of every key of a list.
pub(crate) struct Groups {
    map: HashMap<u64, Vec<usize>>,
}

impl Groups {
    /// Whether these are the positions of the keys of a list.
    pub(crate) closed spec fn of_keys(self, keys: Seq<Option<u64>>) -> bool {
        forall|key: u64|
            #![trigger positions(keys, key)]
            if self.map@.contains_key(key) {
                self.map@[key]@ == positions(keys, key)
            } else {
                positions(keys, key).len() == 0
            }
    }

    /// Collects the positions of every key of a list.
    pub(crate) fn new(keys: &Vec<Option<u64>>) -> (groups: Self)
        ensures
            groups.of_keys(keys@),
    {
        broadcast use vstd::std_specs::hash::group_hash_axioms;

        let mut map: HashMap<u64, Vec<usize>> = HashMap::new();
        let mut i: usize = 0;
        proof {
            assert(keys@.take(0) =~= seq![]);
        }
        while i < keys.len()
            invariant
                i <= keys@.len(),
                forall|key: u64|
                    #![trigger positions(keys@.take(i as int), key)]
                    if map@.contains_key(key) {
                        map@[key]@ == positions(keys@.take(i as int), key)
                    } else {
                        positions(keys@.take(i as int), key).len() == 0
                    },
            decreases keys@.len() - i,
        {
            broadcast use vstd::std_specs::hash::group_hash_axioms;

            let ghost before = map@;
            let ghost done = keys@.take(i as int);
            let ghost next = keys@.take(i + 1);
            assert(next.drop_last() =~= done);
            assert(next.last() == keys@[i as int]);
            if let Some(key) = keys[i] {
                let ghost listed = positions(done, key);
                let mut list: Vec<usize> = match map.remove(&key) {
                    Some(list) => list,
                    None => Vec::new(),
                };
                assert(list@ =~= listed);
                list.push(i);
                map.insert(key, list);
                assert forall|k: u64|
                    #![trigger positions(next, k)]
                    if map@.contains_key(k) {
                        map@[k]@ == positions(next, k)
                    } else {
                        positions(next, k).len() == 0
                    } by {
                    assert(positions(done, k) == positions(next.drop_last(), k));
                    if k != key {
                        assert(map@.contains_key(k) == before.contains_key(k));
                    }
                }
            } else {
                assert forall|k: u64|
                    #![trigger positions(next, k)]
                    if map@.contains_key(k) {
                        map@[k]@ == positions(next, k)
                    } else {
                        positions(next, k).len() == 0
                    } by {
                    assert(positions(done, k) == positions(next.drop_last(), k));
                }
            }
            i += 1;
        }
        proof {
            assert(keys@.take(i as int) =~= keys@);
        }
        Groups { map }
    }

    /// The positions of a key, if it occurs.
    pub(crate) fn get(&self, key: u64, Ghost(keys): Ghost<Seq<Option<u64>>>) -> (found: Option<
        &Vec<usize>,
    >)
        requires
            self.of_keys(keys),
        ensures
            match found {
                Some(list) => list@ == positions(keys, key),
                None => positions(keys, key).len() == 0,
            },
    {
        broadcast use vstd::std_specs::hash::group_hash_axioms;

        let found = self.map.get(&key);
        assert(positions(keys, key) == positions(keys, key));
        found
    }
}

} // verus!
