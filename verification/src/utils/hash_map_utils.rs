//! Counting in a map.
use vstd::prelude::*;
use std::collections::HashMap;

verus! {

broadcast use vstd::std_specs::hash::group_hash_axioms;

/// Adds one to the count of `key`, starting it at one.
pub fn increase_in_map(map: &mut HashMap<u64, usize>, key: &u64)
    requires
        old(map)@.contains_key(*key) ==> old(map)@[*key] < usize::MAX,
    ensures
        final(map)@ == old(map)@.insert(*key, if old(map)@.contains_key(*key) { (old(map)@[*key] + 1) as usize } else { 1 }),
{
    match map.get(key) {
        Some(value) => {
            let next = *value + 1;
            map.insert(*key, next);
        },
        None => {
            map.insert(*key, 1);
        },
    }
}

} // verus!
