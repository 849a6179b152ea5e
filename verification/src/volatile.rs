//! The volatile durability policy: a plain in-process associative map.
//!
//! Contents live in ordinary memory and are lost when the process restarts.
//! The map is a vector of key/value pairs with pairwise-distinct keys,
//! abstracted by a ghost [`Map`] that every operation keeps in step.

use crate::types::{bytes_eq, copy_bytes};
use vstd::prelude::*;

verus! {

/// An in-memory byte map; all contents are lost on restart.
pub struct VolatileMap {
    entries: Vec<(Vec<u8>, Vec<u8>)>,
    model: Ghost<Map<Seq<u8>, Seq<u8>>>,
}

impl VolatileMap {
    /// The key/value pairs currently held.
    pub closed spec fn contents(&self) -> Map<Seq<u8>, Seq<u8>> {
        self.model@
    }

    /// The vector and the ghost map describe the same finite contents.
    pub closed spec fn wf(&self) -> bool {
        &&& self.model@.dom().finite()
        &&& self.model@.dom().len() == self.entries@.len()
        &&& forall|i: int|
            0 <= i < self.entries@.len() ==> self.model@.dom().contains(
                #[trigger] self.entries@[i].0@,
            ) && self.model@[self.entries@[i].0@] == self.entries@[i].1@
        &&& forall|i: int, j: int|
            0 <= i < j < self.entries@.len() ==> #[trigger] self.entries@[i].0@
                != #[trigger] self.entries@[j].0@
        &&& forall|k: Seq<u8>|
            self.model@.dom().contains(k) ==> exists|i: int|
                0 <= i < self.entries@.len() && #[trigger] self.entries@[i].0@ == k
    }

    /// An empty map.
    pub fn new() -> (r: VolatileMap)
        ensures
            r.wf(),
            r.contents() == Map::<Seq<u8>, Seq<u8>>::empty(),
    {
        let r = VolatileMap { entries: Vec::new(), model: Ghost(Map::empty()) };
        proof {
            assert(r.model@.dom() =~= Set::empty());
        }
        r
    }

    /// The position of `key`, if present.
    fn find(&self, key: &Vec<u8>) -> (r: Option<usize>)
        requires
            self.wf(),
        ensures
            r is Some ==> r->Some_0 < self.entries@.len() && self.entries@[
                r->Some_0 as int
            ].0@ == key@,
            r is None ==> !self.contents().dom().contains(key@),
    {
        let n = self.entries.len();
        let mut i: usize = 0;
        while i < n
            invariant
                self.wf(),
                n == self.entries@.len(),
                i <= n,
                forall|k: int| 0 <= k < i ==> self.entries@[k].0@ != key@,
            decreases n - i,
        {
            if bytes_eq(&self.entries[i].0, key) {
                return Some(i);
            }
            i = i + 1;
        }
        proof {
            if self.contents().dom().contains(key@) {
                let w = choose|w: int|
                    0 <= w < self.entries@.len() && #[trigger] self.entries@[w].0@ == key@;
                assert(false);
            }
        }
        None
    }

    /// Direct lookup, no side effects.
    pub fn get(&self, key: &Vec<u8>) -> (r: Option<Vec<u8>>)
        requires
            self.wf(),
        ensures
            r is Some <==> self.contents().dom().contains(key@),
            r is Some ==> r->Some_0@ == self.contents()[key@],
    {
        match self.find(key) {
            Some(i) => Some(copy_bytes(&self.entries[i].1)),
            None => None,
        }
    }

    /// Inserts a pair, returning the previous value of the key if any.
    pub fn insert(&mut self, key: Vec<u8>, value: Vec<u8>) -> (r: Option<Vec<u8>>)
        requires
            old(self).wf(),
        ensures
            final(self).wf(),
            final(self).contents() == old(self).contents().insert(key@, value@),
            r is Some <==> old(self).contents().dom().contains(key@),
            r is Some ==> r->Some_0@ == old(self).contents()[key@],
    {
        let found = self.find(&key);
        match found {
            Some(i) => {
                let prev = copy_bytes(&self.entries[i].1);
                self.entries.set(i, (key, value));
                proof {
                    self.model@ = self.model@.insert(self.entries@[i as int].0@, value@);
                    assert(self.model@.dom() =~= old(self).model@.dom());
                    assert forall|k: Seq<u8>| self.model@.dom().contains(k) implies exists|w: int|
                        0 <= w < self.entries@.len() && #[trigger] self.entries@[w].0@ == k by {
                        let w = choose|w: int|
                            0 <= w < old(self).entries@.len() && #[trigger] old(
                                self,
                            ).entries@[w].0@ == k;
                        assert(self.entries@[w].0@ == k);
                    }
                }
                Some(prev)
            },
            None => {
                self.entries.push((key, value));
                proof {
                    let kview = self.entries@[self.entries@.len() - 1].0@;
                    self.model@ = self.model@.insert(kview, value@);
                    assert(self.model@.dom() =~= old(self).model@.dom().insert(kview));
                    assert forall|k: Seq<u8>| self.model@.dom().contains(k) implies exists|w: int|
                        0 <= w < self.entries@.len() && #[trigger] self.entries@[w].0@ == k by {
                        if k == kview {
                            assert(self.entries@[self.entries@.len() - 1].0@ == k);
                        } else {
                            let w = choose|w: int|
                                0 <= w < old(self).entries@.len() && #[trigger] old(
                                    self,
                                ).entries@[w].0@ == k;
                            assert(self.entries@[w].0@ == k);
                        }
                    }
                }
                None
            },
        }
    }

    /// The number of pairs held.
    pub fn len(&self) -> (r: u64)
        requires
            self.wf(),
        ensures
            r as nat == self.contents().dom().len(),
    {
        let l = self.entries.len();
        l as u64
    }

    /// A snapshot of all pairs: sound, complete and key-distinct.
    pub fn snapshot(&self) -> (r: Vec<(Vec<u8>, Vec<u8>)>)
        requires
            self.wf(),
        ensures
            r@.len() == self.contents().dom().len(),
            forall|i: int|
                0 <= i < r@.len() ==> self.contents().dom().contains(#[trigger] r@[i].0@)
                    && self.contents()[r@[i].0@] == r@[i].1@,
            forall|i: int, j: int|
                0 <= i < j < r@.len() ==> #[trigger] r@[i].0@ != #[trigger] r@[j].0@,
            forall|k: Seq<u8>|
                self.contents().dom().contains(k) ==> exists|i: int|
                    0 <= i < r@.len() && #[trigger] r@[i].0@ == k,
    {
        let n = self.entries.len();
        let mut out: Vec<(Vec<u8>, Vec<u8>)> = Vec::new();
        let mut i: usize = 0;
        while i < n
            invariant
                self.wf(),
                n == self.entries@.len(),
                i <= n,
                out@.len() == i,
                forall|k: int|
                    0 <= k < i ==> #[trigger] out@[k].0@ == self.entries@[k].0@ && out@[k].1@
                        == self.entries@[k].1@,
            decreases n - i,
        {
            out.push((copy_bytes(&self.entries[i].0), copy_bytes(&self.entries[i].1)));
            i = i + 1;
        }
        proof {
            assert forall|k: Seq<u8>| self.contents().dom().contains(k) implies exists|w: int|
                0 <= w < out@.len() && #[trigger] out@[w].0@ == k by {
                let w = choose|w: int|
                    0 <= w < self.entries@.len() && #[trigger] self.entries@[w].0@ == k;
                assert(out@[w].0@ == k);
            }
        }
        out
    }
}

} // verus!
