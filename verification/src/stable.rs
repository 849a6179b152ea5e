//! The persistent durability policy, backed by a durable region buffer.
//!
//! One durable address space — an in-process region buffer that the store
//! owns — is partitioned by a memory manager into logical regions addressed
//! by small stable numeric tags, one region per collection: avatars,
//! tickets, worlds, and the counters.  Each region holds an ordered byte
//! map whose mutations are written through to the underlying buffer within
//! the call, so reopening the same buffer with the same tags reloads the
//! same contents; [`stable_reopen`] does exactly that and models a process
//! restart.  Binding the regions to a platform's ambient persistent memory
//! is not modeled here: nothing could be promised about what such a memory
//! already holds.
//!
//! The maps are a collection of an outside crate.  Their contents are named
//! by [`stable_contents`]; which address space a map lives in and which tag
//! it was opened under are named by [`stable_map_token`] and
//! [`stable_map_tag`], so that only the intact set of regions of one
//! address space can be reopened.  Every operation the store uses is a
//! trusted wrapper over those names.  Exhaustion of the underlying memory
//! aborts the call inside the outside crate; it has no error return to
//! surface.

use ic_stable_structures::memory_manager::{MemoryId, MemoryManager, VirtualMemory};
use ic_stable_structures::{StableBTreeMap, VectorMemory};
use vstd::prelude::*;

verus! {

/// The durable address space a persistent store lives in.
#[verifier::external_body]
pub struct StableBase {
    mem: VectorMemory,
}

/// One durable byte map, mapped onto a region of a [`StableBase`].
#[verifier::external_body]
pub struct StableMap {
    inner: StableBTreeMap<Vec<u8>, Vec<u8>, VirtualMemory<VectorMemory>>,
}

/// The key/value pairs a durable map currently holds.
pub uninterp spec fn stable_contents(m: &StableMap) -> Map<Seq<u8>, Seq<u8>>;

/// The address space a durable map lives in, as an abstract token: maps
/// opened from one [`StableBase`] share its token, and nothing else is
/// known to share it.
pub uninterp spec fn stable_map_token(m: &StableMap) -> int;

/// See [`stable_map_token`]: the token of the address space itself.
pub uninterp spec fn stable_base_token(b: &StableBase) -> int;

/// The stable numeric tag a durable map's region was opened under.
pub uninterp spec fn stable_map_tag(m: &StableMap) -> int;

/// A map with nothing in it.
pub open spec fn empty_contents() -> Map<Seq<u8>, Seq<u8>> {
    Map::empty()
}

/// The four durable regions of one address space, one per collection.
pub struct StableRegions {
    pub base: StableBase,
    pub avatars: StableMap,
    pub tickets: StableMap,
    pub worlds: StableMap,
    pub counters: StableMap,
}

/// Every region of `r` belongs to `r`'s own address space, under the fixed
/// tag of its collection.
pub open spec fn regions_coherent(r: &StableRegions) -> bool {
    &&& stable_map_token(&r.avatars) == stable_base_token(&r.base)
    &&& stable_map_token(&r.tickets) == stable_base_token(&r.base)
    &&& stable_map_token(&r.worlds) == stable_base_token(&r.base)
    &&& stable_map_token(&r.counters) == stable_base_token(&r.base)
    &&& stable_map_tag(&r.avatars) == 0
    &&& stable_map_tag(&r.tickets) == 1
    &&& stable_map_tag(&r.worlds) == 2
    &&& stable_map_tag(&r.counters) == 3
}

/// Relies on `VectorMemory::default`, `MemoryManager::init` and
/// `StableBTreeMap::init`: a region buffer constructed here is fresh and
/// owned, so on every target each of the four regions (tags 0 to 3) starts
/// as an empty map of this new address space, aliasing nothing.
#[verifier::external_body]
pub fn stable_open_fresh() -> (r: StableRegions)
    ensures
        stable_map_token(&r.avatars) == stable_base_token(&r.base),
        stable_map_tag(&r.avatars) == 0,
        regions_coherent(&r),
        stable_contents(&r.avatars) == empty_contents(),
        stable_contents(&r.tickets) == empty_contents(),
        stable_contents(&r.worlds) == empty_contents(),
        stable_contents(&r.counters) == empty_contents(),
{
    let mem = VectorMemory::default();
    let mm = MemoryManager::init(mem.clone());
    let avatars = StableMap { inner: StableBTreeMap::init(mm.get(MemoryId::new(0))) };
    let tickets = StableMap { inner: StableBTreeMap::init(mm.get(MemoryId::new(1))) };
    let worlds = StableMap { inner: StableBTreeMap::init(mm.get(MemoryId::new(2))) };
    let counters = StableMap { inner: StableBTreeMap::init(mm.get(MemoryId::new(3))) };
    StableRegions { base: StableBase { mem }, avatars, tickets, worlds, counters }
}

/// Relies on `MemoryManager::init` and `StableBTreeMap::init`: reopening
/// the same region buffer under the same stable tags loads each map with
/// the contents it held, so a restart loses nothing.  The `requires` admits
/// only the intact set of regions of one address space, each under its own
/// tag; the old handles are consumed before the buffer is reread.
#[verifier::external_body]
pub fn stable_reopen(regions: StableRegions) -> (r: StableRegions)
    requires
        regions_coherent(&regions),
    ensures
        regions_coherent(&r),
        stable_contents(&r.avatars) == stable_contents(&regions.avatars),
        stable_contents(&r.tickets) == stable_contents(&regions.tickets),
        stable_contents(&r.worlds) == stable_contents(&regions.worlds),
        stable_contents(&r.counters) == stable_contents(&regions.counters),
{
    let StableRegions { base, avatars, tickets, worlds, counters } = regions;
    drop(avatars);
    drop(tickets);
    drop(worlds);
    drop(counters);
    let mm = MemoryManager::init(base.mem.clone());
    let avatars = StableMap { inner: StableBTreeMap::init(mm.get(MemoryId::new(0))) };
    let tickets = StableMap { inner: StableBTreeMap::init(mm.get(MemoryId::new(1))) };
    let worlds = StableMap { inner: StableBTreeMap::init(mm.get(MemoryId::new(2))) };
    let counters = StableMap { inner: StableBTreeMap::init(mm.get(MemoryId::new(3))) };
    StableRegions { base: StableBase { mem: base.mem }, avatars, tickets, worlds, counters }
}

/// Relies on `StableBTreeMap::get`: returns the value stored under the key,
/// if any.
#[verifier::external_body]
pub fn stable_get(m: &StableMap, key: &Vec<u8>) -> (r: Option<Vec<u8>>)
    ensures
        r is Some <==> stable_contents(m).dom().contains(key@),
        r is Some ==> r->Some_0@ == stable_contents(m)[key@],
{
    m.inner.get(key)
}

/// Relies on `StableBTreeMap::insert`: stores the pair durably in the
/// map's own region and returns the previous value of the key, if any.
#[verifier::external_body]
pub fn stable_insert(m: &mut StableMap, key: Vec<u8>, value: Vec<u8>) -> (r: Option<Vec<u8>>)
    ensures
        stable_contents(final(m)) == stable_contents(old(m)).insert(key@, value@),
        stable_map_token(final(m)) == stable_map_token(old(m)),
        stable_map_tag(final(m)) == stable_map_tag(old(m)),
        r is Some <==> stable_contents(old(m)).dom().contains(key@),
        r is Some ==> r->Some_0@ == stable_contents(old(m))[key@],
{
    m.inner.insert(key, value)
}

/// Relies on `StableBTreeMap::len`: counts the entries held.
#[verifier::external_body]
pub fn stable_len(m: &StableMap) -> (r: u64)
    ensures
        r as nat == stable_contents(m).dom().len(),
{
    m.inner.len()
}

/// Relies on `StableBTreeMap::iter`: a snapshot of all pairs, each key once.
#[verifier::external_body]
pub fn stable_snapshot(m: &StableMap) -> (r: Vec<(Vec<u8>, Vec<u8>)>)
    ensures
        r@.len() == stable_contents(m).dom().len(),
        forall|i: int|
            0 <= i < r@.len() ==> stable_contents(m).dom().contains(#[trigger] r@[i].0@)
                && stable_contents(m)[r@[i].0@] == r@[i].1@,
        forall|i: int, j: int|
            0 <= i < j < r@.len() ==> #[trigger] r@[i].0@ != #[trigger] r@[j].0@,
        forall|k: Seq<u8>|
            stable_contents(m).dom().contains(k) ==> exists|i: int|
                0 <= i < r@.len() && #[trigger] r@[i].0@ == k,
{
    m.inner.iter().map(|e| e.into_pair()).collect()
}

} // verus!
