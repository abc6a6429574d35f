//! A map keyed by regions, stored flat under each region's key.

use std::collections::HashMap;
use vstd::prelude::*;
use crate::region::{
    is_path, key_path, lemma_key_path_of_path_key, lemma_path_key_fits, lemma_path_key_injective,
    path_key, MortonRegion,
};

verus! {

broadcast use vstd::std_specs::hash::group_hash_axioms;

/// A map from regions to values.
pub struct MortonRegionMap<V> {
    entries: HashMap<u128, V>,
}

impl<V> View for MortonRegionMap<V> {
    type V = Map<Seq<nat>, V>;

    /// The map from each region's path to the value held for it.
    closed spec fn view(&self) -> Map<Seq<nat>, V> {
        Map::new(
            |path: Seq<nat>| is_path(path) && self.entries@.contains_key(path_key(path) as u128),
            |path: Seq<nat>| self.entries@[path_key(path) as u128],
        )
    }
}

/// Among paths, only `path` itself is filed under the key of `path`.
proof fn lemma_key_names_one_path(path: Seq<nat>)
    requires
        is_path(path),
    ensures
        path_key(path) as u128 == path_key(path),
        forall|other: Seq<nat>|
            is_path(other) && #[trigger] path_key(other) as u128 == path_key(path) as u128
                ==> other == path,
{
    lemma_path_key_fits(path);
    assert forall|other: Seq<nat>|
        is_path(other) && #[trigger] path_key(other) as u128 == path_key(path) as u128
    implies other == path by {
        lemma_path_key_fits(other);
        lemma_path_key_injective(other, path);
    }
}

impl<V> MortonRegionMap<V> {
    /// The map holds finitely many entries.
    pub proof fn lemma_holds_finitely_many(&self)
        ensures
            self@.dom().finite(),
    {
        let keys = self.entries@.dom();
        let read = |key: u128| key_path(key as nat);
        keys.lemma_map_finite(read);
        assert forall|path: Seq<nat>| self@.dom().contains(path) implies keys.map(read).contains(
            path,
        ) by {
            lemma_path_key_fits(path);
            lemma_key_path_of_path_key(path);
            assert(keys.contains(path_key(path) as u128) && read(path_key(path) as u128) == path);
        }
        vstd::set_lib::lemma_len_subset(self@.dom(), keys.map(read));
    }

    /// A map that holds nothing.
    pub fn new() -> (map: Self)
        ensures
            map@ == Map::<Seq<nat>, V>::empty(),
    {
        MortonRegionMap { entries: HashMap::new() }
    }

    /// Files `value` under `region` and hands back what was there before.
    pub fn insert(&mut self, region: MortonRegion, value: V) -> (before: Option<V>)
        ensures
            final(self)@ == old(self)@.insert(region@, value),
            before == if old(self)@.contains_key(region@) {
                Some(old(self)@[region@])
            } else {
                None::<V>
            },
    {
        let key: u128 = region.key();
        proof {
            lemma_key_names_one_path(region@);
        }
        self.entries.insert(key, value)
    }

    /// Takes out what is filed under `region`, if anything.
    pub fn remove(&mut self, region: &MortonRegion) -> (before: Option<V>)
        ensures
            final(self)@ == old(self)@.remove(region@),
            before == if old(self)@.contains_key(region@) {
                Some(old(self)@[region@])
            } else {
                None::<V>
            },
    {
        let key: u128 = region.key();
        proof {
            lemma_key_names_one_path(region@);
        }
        self.entries.remove(&key)
    }

    /// What is filed under `region`, if anything.
    pub fn get(&self, region: &MortonRegion) -> (value: Option<&V>)
        ensures
            value == if self@.contains_key(region@) {
                Some(&self@[region@])
            } else {
                None::<&V>
            },
    {
        let key: u128 = region.key();
        self.entries.get(&key)
    }

    /// Whether anything is filed under `region`.
    pub fn contains_key(&self, region: &MortonRegion) -> (held: bool)
        ensures
            held == self@.contains_key(region@),
    {
        let key: u128 = region.key();
        self.entries.contains_key(&key)
    }
}

impl<V: Clone> Clone for MortonRegionMap<V> {
    fn clone(&self) -> (copy: Self)
        ensures
            copy@ == self@,
    {
        MortonRegionMap { entries: self.entries.clone() }
    }
}

impl<V> Default for MortonRegionMap<V> {
    fn default() -> (map: Self)
        ensures
            map@ == Map::<Seq<nat>, V>::empty(),
    {
        MortonRegionMap::new()
    }
}

} // verus!
