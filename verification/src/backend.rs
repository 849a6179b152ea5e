//! The durable map backend: one interface, two durability policies.
//!
//! A region map is either volatile (plain in-process memory, lost on
//! restart) or persistent (a durable region that survives a restart).  The
//! policy is selected when the store is constructed, not per call, and the
//! entity stores above are verified once against this common contract.

use crate::stable::{
    stable_contents, stable_get, stable_insert, stable_len, stable_map_tag, stable_map_token,
    stable_snapshot, StableMap,
};
use crate::volatile::VolatileMap;
use vstd::prelude::*;

verus! {

/// One collection's key/value store, under the chosen durability policy.
pub enum RegionMap {
    Volatile(VolatileMap),
    Stable(StableMap),
}

impl RegionMap {
    /// The key/value pairs currently held.
    pub open spec fn contents(&self) -> Map<Seq<u8>, Seq<u8>> {
        match self {
            RegionMap::Volatile(m) => m.contents(),
            RegionMap::Stable(m) => stable_contents(m),
        }
    }

    /// Whether this map survives a restart.
    pub open spec fn is_stable(&self) -> bool {
        self is Stable
    }

    /// The address-space token of a persistent map; meaningless when
    /// volatile.
    pub open spec fn region_token(&self) -> int {
        match self {
            RegionMap::Volatile(_) => 0,
            RegionMap::Stable(m) => stable_map_token(m),
        }
    }

    /// The region tag of a persistent map; meaningless when volatile.
    pub open spec fn region_tag(&self) -> int {
        match self {
            RegionMap::Volatile(_) => 0,
            RegionMap::Stable(m) => stable_map_tag(m),
        }
    }

    /// Internal consistency of the volatile representation.
    pub open spec fn wf(&self) -> bool {
        match self {
            RegionMap::Volatile(m) => m.wf() && m.contents().dom().finite(),
            RegionMap::Stable(_) => true,
        }
    }

    /// Direct lookup, no side effects.
    pub fn get(&self, key: &Vec<u8>) -> (r: Option<Vec<u8>>)
        requires
            self.wf(),
        ensures
            r is Some <==> self.contents().dom().contains(key@),
            r is Some ==> r->Some_0@ == self.contents()[key@],
    {
        match self {
            RegionMap::Volatile(m) => m.get(key),
            RegionMap::Stable(m) => stable_get(m, key),
        }
    }

    /// Whether the key is present.
    pub fn contains(&self, key: &Vec<u8>) -> (r: bool)
        requires
            self.wf(),
        ensures
            r == self.contents().dom().contains(key@),
    {
        self.get(key).is_some()
    }

    /// Inserts a pair, returning the previous value of the key if any.
    pub fn insert(&mut self, key: Vec<u8>, value: Vec<u8>) -> (r: Option<Vec<u8>>)
        requires
            old(self).wf(),
        ensures
            final(self).wf(),
            final(self).is_stable() == old(self).is_stable(),
            final(self).region_token() == old(self).region_token(),
            final(self).region_tag() == old(self).region_tag(),
            final(self).contents() == old(self).contents().insert(key@, value@),
            r is Some <==> old(self).contents().dom().contains(key@),
            r is Some ==> r->Some_0@ == old(self).contents()[key@],
    {
        match self {
            RegionMap::Volatile(m) => m.insert(key, value),
            RegionMap::Stable(m) => stable_insert(m, key, value),
        }
    }

    /// The number of pairs held.
    pub fn len(&self) -> (r: u64)
        requires
            self.wf(),
        ensures
            r as nat == self.contents().dom().len(),
    {
        match self {
            RegionMap::Volatile(m) => m.len(),
            RegionMap::Stable(m) => stable_len(m),
        }
    }

    /// A snapshot of all pairs: sound, complete and key-distinct.  Re-taking
    /// a snapshot yields a fresh snapshot of the contents at that call.
    pub fn snapshot(&self) -> (r: Vec<(Vec<u8>, Vec<u8>)>)
        requires
            self.wf(),
        ensures
            r@.len() == self.contents().dom().len(),
            forall|i: int|
                0 <= i < r@.len() ==> self.contents().dom().contains(#[trigger] r@[i].0@)
                    && self.contents()[r@[i].0@] == r@[i].1@,
            forall|i: int, j: int|
                0 <= i < j < r@.len() ==> #[trigger] r@[i].0@ != #[trigger] r@[j].0@,
            forall|k: Seq<u8>|
                self.contents().dom().contains(k) ==> exists|i: int|
                    0 <= i < r@.len() && #[trigger] r@[i].0@ == k,
    {
        match self {
            RegionMap::Volatile(m) => m.snapshot(),
            RegionMap::Stable(m) => stable_snapshot(m),
        }
    }
}

} // verus!
