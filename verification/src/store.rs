//! The persistent entity store: avatars, tickets and virtual worlds.
//!
//! A store is constructed once, with its durability policy, and passed to
//! every operation; the caller identity is an explicit argument.  Each
//! collection lives in one region map of the backend, holding records framed
//! by the verified codec; three counters, persisted in a fourth region, mint
//! collision-free string identifiers.  The store's abstract state is a
//! [`StoreModel`]; every mutating operation is specified as a function of
//! that model.

use crate::backend::RegionMap;
use crate::codec::enc_u64;
use crate::records::{u64_field, u64_from_field};
use crate::records::{
    decode_avatar, decode_ticket, decode_world, enc_avatar, enc_ticket, enc_world, encode_avatar,
    encode_ticket, encode_world,
};
use crate::stable::{
    regions_coherent, stable_base_token, stable_open_fresh, stable_reopen, StableBase,
    StableRegions,
};
use crate::text::{dec_digit_chars, format_id, lemma_dec_digit_chars_injective};
use crate::types::{copy_bytes, Avatar, AvatarV, Identity, Ticket, TicketV, User, VRWorld, VRWorldV};
use crate::volatile::VolatileMap;
use vstd::prelude::*;
use vstd::utf8::encode_utf8;

verus! {

broadcast use vstd::utf8::encode_utf8_decode_utf8;

/// The abstract state of a store: three record maps, keyed by the UTF-8
/// bytes of their key strings (the owner token for avatars, the identifier
/// string for tickets and worlds), and one counter per kind.
#[verifier::ext_equal]
pub ghost struct StoreModel {
    pub avatars: Map<Seq<u8>, AvatarV>,
    pub tickets: Map<Seq<u8>, TicketV>,
    pub worlds: Map<Seq<u8>, VRWorldV>,
    pub avatar_counter: u64,
    pub ticket_counter: u64,
    pub world_counter: u64,
}

/// The state of a store that holds nothing and has minted nothing.
pub open spec fn empty_model() -> StoreModel {
    StoreModel {
        avatars: Map::empty(),
        tickets: Map::empty(),
        worlds: Map::empty(),
        avatar_counter: 0,
        ticket_counter: 0,
        world_counter: 0,
    }
}

/// The identifier prefix of each kind; the prefixes never collide.
pub open spec fn avatar_prefix() -> Seq<char> {
    seq!['a', 'v', 'a', 't', 'a', 'r', '_']
}

/// See [`avatar_prefix`].
pub open spec fn ticket_prefix() -> Seq<char> {
    seq!['t', 'i', 'c', 'k', 'e', 't', '_']
}

/// See [`avatar_prefix`].
pub open spec fn world_prefix() -> Seq<char> {
    seq!['v', 'r', '_', 'w', 'o', 'r', 'l', 'd', '_']
}

/// The avatar identifier minted from counter value `j`.
pub open spec fn avatar_id(j: u64) -> Seq<char> {
    avatar_prefix() + dec_digit_chars(j)
}

/// The ticket identifier minted from counter value `j`.
pub open spec fn ticket_id(j: u64) -> Seq<char> {
    ticket_prefix() + dec_digit_chars(j)
}

/// The world identifier minted from counter value `j`.
pub open spec fn world_id(j: u64) -> Seq<char> {
    world_prefix() + dec_digit_chars(j)
}

/// The map key of the ticket minted from counter value `j`.
pub open spec fn ticket_key(j: u64) -> Seq<u8> {
    encode_utf8(ticket_id(j))
}

/// The map key of the world minted from counter value `j`.
pub open spec fn world_key(j: u64) -> Seq<u8> {
    encode_utf8(world_id(j))
}

/// Distinct counter values give distinct ticket keys.
pub proof fn lemma_ticket_key_injective(a: u64, b: u64)
    requires
        ticket_key(a) == ticket_key(b),
    ensures
        a == b,
{
    assert(vstd::utf8::decode_utf8(encode_utf8(ticket_id(a))) == ticket_id(a));
    assert(vstd::utf8::decode_utf8(encode_utf8(ticket_id(b))) == ticket_id(b));
    assert(ticket_id(a) == ticket_id(b));
    assert(dec_digit_chars(a) =~= dec_digit_chars(b)) by {
        assert forall|i: int| 0 <= i < dec_digit_chars(a).len() implies dec_digit_chars(a)[i]
            == dec_digit_chars(b)[i] by {
            assert(ticket_id(a)[7 + i] == ticket_id(b)[7 + i]);
        }
    }
    lemma_dec_digit_chars_injective(a, b);
}

/// Distinct counter values give distinct world keys.
pub proof fn lemma_world_key_injective(a: u64, b: u64)
    requires
        world_key(a) == world_key(b),
    ensures
        a == b,
{
    assert(vstd::utf8::decode_utf8(encode_utf8(world_id(a))) == world_id(a));
    assert(vstd::utf8::decode_utf8(encode_utf8(world_id(b))) == world_id(b));
    assert(world_id(a) == world_id(b));
    assert(dec_digit_chars(a) =~= dec_digit_chars(b)) by {
        assert forall|i: int| 0 <= i < dec_digit_chars(a).len() implies dec_digit_chars(a)[i]
            == dec_digit_chars(b)[i] by {
            assert(world_id(a)[9 + i] == world_id(b)[9 + i]);
        }
    }
    lemma_dec_digit_chars_injective(a, b);
}

/// Distinct counter values give distinct avatar identifiers.
pub proof fn lemma_avatar_id_injective(a: u64, b: u64)
    requires
        avatar_id(a) == avatar_id(b),
    ensures
        a == b,
{
    assert(avatar_id(a).len() == avatar_id(b).len());
    assert(avatar_id(a).len() == avatar_prefix().len() + dec_digit_chars(a).len());
    assert(avatar_id(b).len() == avatar_prefix().len() + dec_digit_chars(b).len());
    assert(dec_digit_chars(a).len() == dec_digit_chars(b).len());
    assert(dec_digit_chars(a) =~= dec_digit_chars(b)) by {
        assert forall|i: int| 0 <= i < dec_digit_chars(a).len() implies dec_digit_chars(a)[i]
            == dec_digit_chars(b)[i] by {
            assert(avatar_id(a)[7 + i] == dec_digit_chars(a)[i]);
            assert(avatar_id(b)[7 + i] == dec_digit_chars(b)[i]);
            assert(avatar_id(a)[7 + i] == avatar_id(b)[7 + i]);
        }
    }
    lemma_dec_digit_chars_injective(a, b);
}

/// The little-endian value of the first eight bytes.
pub open spec fn le_val(b: Seq<u8>) -> u64 {
    (b[0] as u64) | ((b[1] as u64) << 8) | ((b[2] as u64) << 16) | ((b[3] as u64) << 24) | ((
    b[4] as u64) << 32) | ((b[5] as u64) << 40) | ((b[6] as u64) << 48) | ((b[7] as u64) << 56)
}

/// Reading back an encoded integer yields the integer.
pub proof fn lemma_le_val_enc(n: u64)
    ensures
        le_val(enc_u64(n)) == n,
{
    let b = enc_u64(n);
    assert((((n & 0xff) as u8) as u64) | ((((n >> 8) & 0xff) as u8 as u64) << 8) | ((((n >> 16)
        & 0xff) as u8 as u64) << 16) | ((((n >> 24) & 0xff) as u8 as u64) << 24) | ((((n >> 32)
        & 0xff) as u8 as u64) << 32) | ((((n >> 40) & 0xff) as u8 as u64) << 40) | ((((n >> 48)
        & 0xff) as u8 as u64) << 48) | ((((n >> 56) & 0xff) as u8 as u64) << 56) == n)
        by (bit_vector);
}

/// The counter-region key of each kind.
pub open spec fn avatar_counter_key() -> Seq<u8> {
    seq![0u8]
}

/// See [`avatar_counter_key`].
pub open spec fn ticket_counter_key() -> Seq<u8> {
    seq![1u8]
}

/// See [`avatar_counter_key`].
pub open spec fn world_counter_key() -> Seq<u8> {
    seq![2u8]
}

/// The value of the counter stored under `key`: zero until first persisted.
pub open spec fn counter_of(m: Map<Seq<u8>, Seq<u8>>, key: Seq<u8>) -> u64 {
    if m.dom().contains(key) {
        le_val(m[key])
    } else {
        0
    }
}

/// The store: four region maps under one durability policy, abstracted by a
/// [`StoreModel`].
pub struct Store {
    base: Option<StableBase>,
    avatars: RegionMap,
    tickets: RegionMap,
    worlds: RegionMap,
    counters: RegionMap,
    av_model: Ghost<Map<Seq<u8>, AvatarV>>,
    tk_model: Ghost<Map<Seq<u8>, TicketV>>,
    wd_model: Ghost<Map<Seq<u8>, VRWorldV>>,
}

/// A world record as the store keeps it: the creator is its first
/// participant and participants never repeat.
pub open spec fn world_ok(w: VRWorldV) -> bool {
    &&& w.participants.len() >= 1
    &&& w.participants[0] == w.creator
    &&& forall|i: int, j: int|
        0 <= i < j < w.participants.len() ==> #[trigger] w.participants[i]
            != #[trigger] w.participants[j]
}

impl Store {
    /// The abstract state.
    pub closed spec fn model(&self) -> StoreModel {
        StoreModel {
            avatars: self.av_model@,
            tickets: self.tk_model@,
            worlds: self.wd_model@,
            avatar_counter: counter_of(self.counters.contents(), avatar_counter_key()),
            ticket_counter: counter_of(self.counters.contents(), ticket_counter_key()),
            world_counter: counter_of(self.counters.contents(), world_counter_key()),
        }
    }

    /// Whether the store's contents survive a restart.
    pub closed spec fn is_persistent(&self) -> bool {
        self.base is Some
    }

    /// The regions hold exactly the encodings of the model's records, every
    /// record is keyed consistently, and every minted key is accounted to
    /// the counter of its kind.
    pub closed spec fn wf(&self) -> bool {
        &&& self.avatars.wf() && self.tickets.wf() && self.worlds.wf() && self.counters.wf()
        &&& self.avatars.is_stable() == self.base is Some
        &&& self.tickets.is_stable() == self.base is Some
        &&& self.worlds.is_stable() == self.base is Some
        &&& self.counters.is_stable() == self.base is Some
        &&& self.av_model@.dom().finite()
        &&& self.tk_model@.dom().finite()
        &&& self.wd_model@.dom().finite()
        &&& self.avatars.contents().dom() == self.av_model@.dom()
        &&& self.tickets.contents().dom() == self.tk_model@.dom()
        &&& self.worlds.contents().dom() == self.wd_model@.dom()
        &&& forall|k: Seq<u8>|
            self.av_model@.dom().contains(k) ==> self.avatars.contents()[k] == enc_avatar(
                #[trigger] self.av_model@[k],
            ) && self.av_model@[k].owner == k
        &&& forall|k: Seq<u8>|
            self.tk_model@.dom().contains(k) ==> self.tickets.contents()[k] == enc_ticket(
                #[trigger] self.tk_model@[k],
            ) && encode_utf8(self.tk_model@[k].id) == k
        &&& forall|k: Seq<u8>|
            self.wd_model@.dom().contains(k) ==> self.worlds.contents()[k] == enc_world(
                #[trigger] self.wd_model@[k],
            ) && encode_utf8(self.wd_model@[k].id) == k && world_ok(self.wd_model@[k])
        &&& forall|k: Seq<u8>|
            #[trigger] self.tk_model@.dom().contains(k) ==> exists|j: u64|
                1 <= j <= self.model().ticket_counter && k == ticket_key(j)
        &&& forall|k: Seq<u8>|
            #[trigger] self.wd_model@.dom().contains(k) ==> exists|j: u64|
                1 <= j <= self.model().world_counter && k == world_key(j)
        &&& forall|k: Seq<u8>|
            #[trigger] self.av_model@.dom().contains(k) ==> exists|j: u64|
                1 <= j <= self.model().avatar_counter && self.av_model@[k].id == avatar_id(j)
        &&& forall|k1: Seq<u8>, k2: Seq<u8>|
            #![trigger self.av_model@[k1], self.av_model@[k2]]
            self.av_model@.dom().contains(k1) && self.av_model@.dom().contains(k2) && k1 != k2
                ==> self.av_model@[k1].id != self.av_model@[k2].id
        &&& forall|k: Seq<u8>|
            #[trigger] self.counters.contents().dom().contains(k) ==> exists|n: u64|
                self.counters.contents()[k] == enc_u64(n)
        &&& self.base is Some ==> {
            &&& self.avatars.region_token() == stable_base_token(&self.base->Some_0)
            &&& self.tickets.region_token() == stable_base_token(&self.base->Some_0)
            &&& self.worlds.region_token() == stable_base_token(&self.base->Some_0)
            &&& self.counters.region_token() == stable_base_token(&self.base->Some_0)
            &&& self.avatars.region_tag() == 0
            &&& self.tickets.region_tag() == 1
            &&& self.worlds.region_tag() == 2
            &&& self.counters.region_tag() == 3
        }
    }

    /// A store under the volatile policy, holding nothing.
    pub fn new_volatile() -> (r: Store)
        ensures
            r.wf(),
            !r.is_persistent(),
            r.model() == empty_model(),
    {
        let r = Store {
            base: None,
            avatars: RegionMap::Volatile(VolatileMap::new()),
            tickets: RegionMap::Volatile(VolatileMap::new()),
            worlds: RegionMap::Volatile(VolatileMap::new()),
            counters: RegionMap::Volatile(VolatileMap::new()),
            av_model: Ghost(Map::empty()),
            tk_model: Ghost(Map::empty()),
            wd_model: Ghost(Map::empty()),
        };
        proof {
            assert(r.avatars.contents().dom() =~= r.av_model@.dom());
            assert(r.tickets.contents().dom() =~= r.tk_model@.dom());
            assert(r.worlds.contents().dom() =~= r.wd_model@.dom());
            assert(r.model() =~= empty_model());
        }
        r
    }

    /// A store under the persistent policy, on a fresh durable memory.
    pub fn new_persistent() -> (r: Store)
        ensures
            r.wf(),
            r.is_persistent(),
            r.model() == empty_model(),
    {
        let regions = stable_open_fresh();
        let r = Store {
            base: Some(regions.base),
            avatars: RegionMap::Stable(regions.avatars),
            tickets: RegionMap::Stable(regions.tickets),
            worlds: RegionMap::Stable(regions.worlds),
            counters: RegionMap::Stable(regions.counters),
            av_model: Ghost(Map::empty()),
            tk_model: Ghost(Map::empty()),
            wd_model: Ghost(Map::empty()),
        };
        proof {
            assert(r.avatars.contents().dom() =~= r.av_model@.dom());
            assert(r.tickets.contents().dom() =~= r.tk_model@.dom());
            assert(r.worlds.contents().dom() =~= r.wd_model@.dom());
            assert(r.model() =~= empty_model());
        }
        r
    }

    /// Rebuilds the store as a process restart would: a persistent store
    /// reloads everything from its durable regions; a volatile store comes
    /// back empty.  That data loss is the volatile policy's contract, not a
    /// defect.
    pub fn reload(self) -> (r: Store)
        requires
            self.wf(),
        ensures
            r.wf(),
            r.is_persistent() == self.is_persistent(),
            self.is_persistent() ==> r.model() == self.model(),
            !self.is_persistent() ==> r.model() == empty_model(),
    {
        let Store { base, avatars, tickets, worlds, counters, av_model, tk_model, wd_model } =
            self;
        match base {
            Some(b) => {
                match (avatars, tickets, worlds, counters) {
                    (
                        RegionMap::Stable(a),
                        RegionMap::Stable(t),
                        RegionMap::Stable(w),
                        RegionMap::Stable(c),
                    ) => {
                        let bundle = StableRegions {
                            base: b,
                            avatars: a,
                            tickets: t,
                            worlds: w,
                            counters: c,
                        };
                        proof {
                            assert(regions_coherent(&bundle));
                        }
                        let regions = stable_reopen(bundle);
                        let r = Store {
                            base: Some(regions.base),
                            avatars: RegionMap::Stable(regions.avatars),
                            tickets: RegionMap::Stable(regions.tickets),
                            worlds: RegionMap::Stable(regions.worlds),
                            counters: RegionMap::Stable(regions.counters),
                            av_model,
                            tk_model,
                            wd_model,
                        };
                        proof {
                            assert(r.model() =~= self.model());
                        }
                        r
                    },
                    _ => {
                        proof {
                            assert(false);
                        }
                        Store::new_volatile()
                    },
                }
            },
            None => Store::new_volatile(),
        }
    }

    /// Mints the next avatar identifier: bumps the avatar counter and
    /// returns `avatar_` followed by its new value in decimal.
    pub fn generate_avatar_id(&mut self) -> (r: String)
        requires
            old(self).wf(),
            old(self).model().avatar_counter < u64::MAX,
        ensures
            final(self).wf(),
            final(self).is_persistent() == old(self).is_persistent(),
            r@ == avatar_id((old(self).model().avatar_counter + 1) as u64),
            final(self).model() == (StoreModel {
                avatar_counter: (old(self).model().avatar_counter + 1) as u64,
                ..old(self).model()
            }),
    {
        let key = counter_key_bytes(0);
        proof {
            assert(key@ =~= avatar_counter_key());
        }
        let cur = read_counter(&self.counters, &key);
        let next = cur + 1;
        write_counter(&mut self.counters, key, next);
        proof {
            lemma_counter_keys_distinct();
            assert(self.model() =~= StoreModel {
                avatar_counter: next,
                ..old(self).model()
            });
        }
        let id = format_id(&avatar_prefix_bytes(), next);
        proof {
            assert(id@ =~= avatar_id(next));
        }
        id
    }

    /// Mints the next ticket identifier, as [`Store::generate_avatar_id`].
    pub fn generate_ticket_id(&mut self) -> (r: String)
        requires
            old(self).wf(),
            old(self).model().ticket_counter < u64::MAX,
        ensures
            final(self).wf(),
            final(self).is_persistent() == old(self).is_persistent(),
            r@ == ticket_id((old(self).model().ticket_counter + 1) as u64),
            final(self).model() == (StoreModel {
                ticket_counter: (old(self).model().ticket_counter + 1) as u64,
                ..old(self).model()
            }),
    {
        let key = counter_key_bytes(1);
        proof {
            assert(key@ =~= ticket_counter_key());
        }
        let cur = read_counter(&self.counters, &key);
        let next = cur + 1;
        write_counter(&mut self.counters, key, next);
        proof {
            lemma_counter_keys_distinct();
            assert(self.model() =~= StoreModel {
                ticket_counter: next,
                ..old(self).model()
            });
        }
        let id = format_id(&ticket_prefix_bytes(), next);
        proof {
            assert(id@ =~= ticket_id(next));
        }
        id
    }

    /// Mints the next world identifier, as [`Store::generate_avatar_id`].
    pub fn generate_vr_world_id(&mut self) -> (r: String)
        requires
            old(self).wf(),
            old(self).model().world_counter < u64::MAX,
        ensures
            final(self).wf(),
            final(self).is_persistent() == old(self).is_persistent(),
            r@ == world_id((old(self).model().world_counter + 1) as u64),
            final(self).model() == (StoreModel {
                world_counter: (old(self).model().world_counter + 1) as u64,
                ..old(self).model()
            }),
    {
        let key = counter_key_bytes(2);
        proof {
            assert(key@ =~= world_counter_key());
        }
        let cur = read_counter(&self.counters, &key);
        let next = cur + 1;
        write_counter(&mut self.counters, key, next);
        proof {
            lemma_counter_keys_distinct();
            assert(self.model() =~= StoreModel {
                world_counter: next,
                ..old(self).model()
            });
        }
        let id = format_id(&world_prefix_bytes(), next);
        proof {
            assert(id@ =~= world_id(next));
        }
        id
    }

    /// Creates the caller's avatar, or returns the existing one unchanged:
    /// repeated creation by the same identity is harmless and changes
    /// nothing, by design.
    pub fn create_avatar(
        &mut self,
        owner: &Identity,
        name: String,
        color: String,
        accessory: String,
    ) -> (r: Avatar)
        requires
            old(self).wf(),
            old(self).model().avatars.dom().contains(owner@) || old(self).model().avatar_counter
                < u64::MAX,
        ensures
            final(self).wf(),
            final(self).is_persistent() == old(self).is_persistent(),
            final(self).model() == spec_create_avatar(
                old(self).model(),
                owner@,
                name@,
                color@,
                accessory@,
            ).0,
            r@ == spec_create_avatar(old(self).model(), owner@, name@, color@, accessory@).1,
            r@.owner == owner@,
            !old(self).model().avatars.dom().contains(owner@) ==> forall|k: Seq<u8>| #[trigger]
                old(self).model().avatars.dom().contains(k) ==> old(self).model().avatars[k].id
                    != r@.id,
    {
        let key = copy_bytes(&owner.bytes);
        let existing = self.avatars.get(&key);
        match existing {
            Some(data) => {
                match decode_avatar(&data) {
                    Some(a) => {
                        proof {
                            assert(a@ == self.av_model@[owner@]);
                        }
                        a
                    },
                    None => {
                        proof {
                            assert(data@ == enc_avatar(self.av_model@[owner@]));
                            assert(false);
                        }
                        Avatar {
                            id: String::new(),
                            name,
                            color,
                            accessory,
                            owner: owner.duplicate(),
                        }
                    },
                }
            },
            None => {
                let id = self.generate_avatar_id();
                let a = Avatar { id, name, color, accessory, owner: owner.duplicate() };
                let data = encode_avatar(&a);
                self.avatars.insert(key, data);
                proof {
                    let c1 = (old(self).model().avatar_counter + 1) as u64;
                    self.av_model@ = self.av_model@.insert(owner@, a@);
                    assert(self.avatars.contents().dom() =~= self.av_model@.dom());
                    assert(self.model() =~= spec_create_avatar(
                        old(self).model(),
                        owner@,
                        name@,
                        color@,
                        accessory@,
                    ).0);
                    assert forall|k: Seq<u8>| #[trigger]
                        old(self).av_model@.dom().contains(k) implies old(
                        self,
                    ).av_model@[k].id != a@.id by {
                        let j = choose|j: u64|
                            1 <= j <= old(self).model().avatar_counter && old(
                                self,
                            ).av_model@[k].id == avatar_id(j);
                        if old(self).av_model@[k].id == a@.id {
                            lemma_avatar_id_injective(j, c1);
                        }
                    }
                    assert forall|k1: Seq<u8>, k2: Seq<u8>|
                        #![trigger self.av_model@[k1], self.av_model@[k2]]
                        self.av_model@.dom().contains(k1) && self.av_model@.dom().contains(k2)
                            && k1 != k2 implies self.av_model@[k1].id != self.av_model@[k2].id by {
                        if k1 != owner@ && k2 != owner@ {
                            assert(old(self).av_model@[k1].id != old(self).av_model@[k2].id);
                        }
                    }
                    assert forall|k: Seq<u8>| #[trigger]
                        self.av_model@.dom().contains(k) implies exists|j: u64|
                        1 <= j <= self.model().avatar_counter && self.av_model@[k].id == avatar_id(
                        j,
                    ) by {
                        if k != owner@ {
                            let j = choose|j: u64|
                                1 <= j <= old(self).model().avatar_counter && old(
                                    self,
                                ).av_model@[k].id == avatar_id(j);
                            assert(1 <= j <= self.model().avatar_counter && self.av_model@[k].id
                                == avatar_id(j));
                        } else {
                            assert(1 <= c1 <= self.model().avatar_counter && self.av_model@[k].id
                                == avatar_id(c1));
                        }
                    }
                }
                a
            },
        }
    }

    /// Direct lookup of the caller's avatar, no side effects.
    pub fn get_avatar(&self, owner: &Identity) -> (r: Option<Avatar>)
        requires
            self.wf(),
        ensures
            r is Some <==> self.model().avatars.dom().contains(owner@),
            r is Some ==> r->Some_0@ == self.model().avatars[owner@],
            r is Some ==> r->Some_0@.owner == owner@,
    {
        let key = copy_bytes(&owner.bytes);
        match self.avatars.get(&key) {
            Some(data) => {
                match decode_avatar(&data) {
                    Some(a) => Some(a),
                    None => {
                        proof {
                            assert(data@ == enc_avatar(self.av_model@[owner@]));
                            assert(false);
                        }
                        None
                    },
                }
            },
            None => None,
        }
    }

    /// Mints a new ticket for the caller: always a fresh record, never a
    /// duplicate identifier, `is_used` false.
    pub fn mint_ticket(
        &mut self,
        owner: &Identity,
        event_name: String,
        event_date: u64,
        ticket_type: String,
    ) -> (r: Ticket)
        requires
            old(self).wf(),
            old(self).model().ticket_counter < u64::MAX,
        ensures
            final(self).wf(),
            final(self).is_persistent() == old(self).is_persistent(),
            !old(self).model().tickets.dom().contains(
                ticket_key((old(self).model().ticket_counter + 1) as u64),
            ),
            final(self).model() == spec_mint_ticket(
                old(self).model(),
                owner@,
                event_name@,
                event_date,
                ticket_type@,
            ).0,
            r@ == spec_mint_ticket(
                old(self).model(),
                owner@,
                event_name@,
                event_date,
                ticket_type@,
            ).1,
            final(self).model().tickets.dom().len() == old(self).model().tickets.dom().len() + 1,
    {
        let ghost j = (old(self).model().ticket_counter + 1) as u64;
        let id = self.generate_ticket_id();
        let key = id.as_str().as_bytes_vec();
        proof {
            assert(key@ == ticket_key(j));
            if old(self).tk_model@.dom().contains(ticket_key(j)) {
                let jj = choose|jj: u64|
                    1 <= jj <= old(self).model().ticket_counter && ticket_key(j) == ticket_key(jj);
                lemma_ticket_key_injective(j, jj);
            }
        }
        let t = Ticket {
            id,
            event_name,
            event_date,
            ticket_type,
            owner: owner.duplicate(),
            is_used: false,
        };
        let data = encode_ticket(&t);
        self.tickets.insert(key, data);
        proof {
            self.tk_model@ = self.tk_model@.insert(ticket_key(j), t@);
            assert(self.tickets.contents().dom() =~= self.tk_model@.dom());
            assert(self.model() =~= spec_mint_ticket(
                old(self).model(),
                owner@,
                event_name@,
                event_date,
                ticket_type@,
            ).0);
            assert forall|k: Seq<u8>| #[trigger]
                self.tk_model@.dom().contains(k) implies exists|jj: u64|
                1 <= jj <= self.model().ticket_counter && k == ticket_key(jj) by {
                if k != ticket_key(j) {
                    let jj = choose|jj: u64|
                        1 <= jj <= old(self).model().ticket_counter && k == ticket_key(jj);
                    assert(1 <= jj <= self.model().ticket_counter && k == ticket_key(jj));
                }
            }
        }
        t
    }

    /// Creates a new world for the caller at logical time `now`: active,
    /// with the creator as its only participant.
    pub fn create_vr_world(
        &mut self,
        creator: &Identity,
        name: String,
        description: String,
        now: u64,
    ) -> (r: VRWorld)
        requires
            old(self).wf(),
            old(self).model().world_counter < u64::MAX,
        ensures
            final(self).wf(),
            final(self).is_persistent() == old(self).is_persistent(),
            !old(self).model().worlds.dom().contains(
                world_key((old(self).model().world_counter + 1) as u64),
            ),
            final(self).model() == spec_create_vr_world(
                old(self).model(),
                creator@,
                name@,
                description@,
                now,
            ).0,
            r@ == spec_create_vr_world(old(self).model(), creator@, name@, description@, now).1,
            final(self).model().worlds.dom().len() == old(self).model().worlds.dom().len() + 1,
    {
        let ghost j = (old(self).model().world_counter + 1) as u64;
        let id = self.generate_vr_world_id();
        let key = id.as_str().as_bytes_vec();
        proof {
            assert(key@ == world_key(j));
            if old(self).wd_model@.dom().contains(world_key(j)) {
                let jj = choose|jj: u64|
                    1 <= jj <= old(self).model().world_counter && world_key(j) == world_key(jj);
                lemma_world_key_injective(j, jj);
            }
        }
        let mut participants: Vec<Identity> = Vec::new();
        participants.push(creator.duplicate());
        let w = VRWorld {
            id,
            name,
            description,
            creator: creator.duplicate(),
            created_at: now,
            is_active: true,
            participants,
        };
        proof {
            assert(w@.participants =~= seq![creator@]);
        }
        let data = encode_world(&w);
        self.worlds.insert(key, data);
        proof {
            self.wd_model@ = self.wd_model@.insert(world_key(j), w@);
            assert(self.worlds.contents().dom() =~= self.wd_model@.dom());
            assert(self.model() =~= spec_create_vr_world(
                old(self).model(),
                creator@,
                name@,
                description@,
                now,
            ).0);
            assert forall|k: Seq<u8>| #[trigger]
                self.wd_model@.dom().contains(k) implies exists|jj: u64|
                1 <= jj <= self.model().world_counter && k == world_key(jj) by {
                if k != world_key(j) {
                    let jj = choose|jj: u64|
                        1 <= jj <= old(self).model().world_counter && k == world_key(jj);
                    assert(1 <= jj <= self.model().world_counter && k == world_key(jj));
                }
            }
        }
        w
    }

    /// Adds the caller to a world's participant set.  An unknown identifier
    /// is an expected outcome, reported as `false` with nothing changed; a
    /// repeated join is idempotent and also changes nothing.
    pub fn join_vr_world(&mut self, world_id_str: &String, caller: &Identity) -> (r: bool)
        requires
            old(self).wf(),
        ensures
            final(self).wf(),
            final(self).is_persistent() == old(self).is_persistent(),
            final(self).model() == spec_join(old(self).model(), world_id_str@, caller@).0,
            r == spec_join(old(self).model(), world_id_str@, caller@).1,
            r == old(self).model().worlds.dom().contains(encode_utf8(world_id_str@)),
            !r ==> *final(self) == *old(self),
    {
        let key = world_id_str.as_str().as_bytes_vec();
        let found = self.worlds.get(&key);
        match found {
            None => false,
            Some(data) => {
                let ghost wv = self.wd_model@[key@];
                match decode_world(&data) {
                    Some(mut w) => {
                        proof {
                            assert(w@ == wv);
                        }
                        if ids_contain(&w.participants, caller) {
                            proof {
                                assert(self.model() =~= spec_join(
                                    old(self).model(),
                                    world_id_str@,
                                    caller@,
                                ).0);
                            }
                            true
                        } else {
                            w.participants.push(caller.duplicate());
                            proof {
                                assert(w@.participants =~= wv.participants.push(caller@));
                                assert(w@ =~= VRWorldV {
                                    participants: wv.participants.push(caller@),
                                    ..wv
                                });
                            }
                            let data2 = encode_world(&w);
                            self.worlds.insert(key, data2);
                            proof {
                                self.wd_model@ = self.wd_model@.insert(encode_utf8(
                                    world_id_str@,
                                ), w@);
                                assert(self.worlds.contents().dom() =~= self.wd_model@.dom());
                                assert(self.model() =~= spec_join(
                                    old(self).model(),
                                    world_id_str@,
                                    caller@,
                                ).0);
                                assert forall|k: Seq<u8>| #[trigger]
                                    self.wd_model@.dom().contains(k) implies exists|jj: u64|
                                    1 <= jj <= self.model().world_counter && k == world_key(
                                    jj,
                                ) by {
                                    let jj = choose|jj: u64|
                                        1 <= jj <= old(self).model().world_counter && k
                                            == world_key(jj);
                                    assert(1 <= jj <= self.model().world_counter && k == world_key(
                                        jj,
                                    ));
                                }
                            }
                            true
                        }
                    },
                    None => {
                        proof {
                            assert(data@ == enc_world(wv));
                            assert(false);
                        }
                        false
                    },
                }
            },
        }
    }
}

/// The key discipline every reachable store state obeys: ticket and world
/// records sit under the UTF-8 bytes of their own identifier, every key was
/// minted from a counter value the counter has already passed, and the
/// record maps are finite.
pub open spec fn model_keys_ok(m: StoreModel) -> bool {
    &&& m.avatars.dom().finite()
    &&& m.tickets.dom().finite()
    &&& m.worlds.dom().finite()
    &&& forall|k: Seq<u8>| #[trigger]
        m.tickets.dom().contains(k) ==> encode_utf8(m.tickets[k].id) == k && (exists|j: u64|
            1 <= j <= m.ticket_counter && k == ticket_key(j))
    &&& forall|k: Seq<u8>| #[trigger]
        m.worlds.dom().contains(k) ==> encode_utf8(m.worlds[k].id) == k && (exists|j: u64|
            1 <= j <= m.world_counter && k == world_key(j))
}

/// The keys of the tickets owned by `owner`.
pub open spec fn owned_ticket_keys(m: StoreModel, owner: Seq<u8>) -> Set<Seq<u8>> {
    m.tickets.dom().filter(|k: Seq<u8>| m.tickets[k].owner == owner)
}

/// The keys of the worlds created by `creator`, active or not.
pub open spec fn created_world_keys(m: StoreModel, creator: Seq<u8>) -> Set<Seq<u8>> {
    m.worlds.dom().filter(|k: Seq<u8>| m.worlds[k].creator == creator)
}

/// The keys of the active worlds, whoever created them.
pub open spec fn active_world_keys(m: StoreModel) -> Set<Seq<u8>> {
    m.worlds.dom().filter(|k: Seq<u8>| m.worlds[k].is_active)
}

impl Store {
    /// Every ticket owned by the caller: a full scan-filter, one element
    /// per owned ticket, in no promised order.
    pub fn get_tickets(&self, caller: &Identity) -> (r: Vec<Ticket>)
        requires
            self.wf(),
        ensures
            r@.len() == owned_ticket_keys(self.model(), caller@).len(),
            forall|i: int|
                0 <= i < r@.len() ==> ((#[trigger] r@[i])@.owner == caller@
                    && self.model().tickets.dom().contains(encode_utf8(r@[i]@.id))
                    && self.model().tickets[encode_utf8(r@[i]@.id)] == r@[i]@),
            forall|i: int, j: int|
                0 <= i < j < r@.len() ==> #[trigger] r@[i]@.id != #[trigger] r@[j]@.id,
            forall|k: Seq<u8>| #[trigger]
                owned_ticket_keys(self.model(), caller@).contains(k) ==> exists|i: int|
                    0 <= i < r@.len() && #[trigger] encode_utf8(r@[i]@.id) == k,
    {
        let snap = self.tickets.snapshot();
        let n = snap.len();
        let mut out: Vec<Ticket> = Vec::new();
        let ghost m = self.model();
        let ghost mut seen = Set::<Seq<u8>>::empty();
        let mut i: usize = 0;
        while i < n
            invariant
                self.wf(),
                m == self.model(),
                n == snap@.len(),
                i <= n,
                snap@.len() == self.tickets.contents().dom().len(),
                forall|q: int|
                    0 <= q < snap@.len() ==> self.tickets.contents().dom().contains(
                        #[trigger] snap@[q].0@,
                    ) && self.tickets.contents()[snap@[q].0@] == snap@[q].1@,
                forall|q: int, p: int|
                    0 <= q < p < snap@.len() ==> #[trigger] snap@[q].0@ != #[trigger] snap@[p].0@,
                forall|k: Seq<u8>|
                    self.tickets.contents().dom().contains(k) ==> exists|q: int|
                        0 <= q < snap@.len() && #[trigger] snap@[q].0@ == k,
                seen.finite(),
                out@.len() == seen.len(),
                forall|x: Seq<u8>| #[trigger]
                    seen.contains(x) ==> (owned_ticket_keys(m, caller@).contains(x) && (exists|
                        q: int,
                    |
                        0 <= q < i && snap@[q].0@ == x) && (exists|oi: int|
                        0 <= oi < out@.len() && encode_utf8(out@[oi]@.id) == x)),
                forall|q: int|
                    0 <= q < i ==> (m.tickets[#[trigger] snap@[q].0@].owner == caller@
                        ==> seen.contains(snap@[q].0@)),
                forall|oi: int|
                    0 <= oi < out@.len() ==> ((#[trigger] out@[oi])@.owner == caller@
                        && m.tickets.dom().contains(encode_utf8(out@[oi]@.id))
                        && m.tickets[encode_utf8(out@[oi]@.id)] == out@[oi]@ && seen.contains(
                        encode_utf8(out@[oi]@.id),
                    )),
                forall|oi: int, oj: int|
                    0 <= oi < oj < out@.len() ==> #[trigger] out@[oi]@.id != #[trigger] out@[
                        oj
                    ]@.id,
            decreases n - i,
        {
            let ghost k = snap@[i as int].0@;
            let ghost seen0 = seen;
            let ghost out0 = out@;
            let ghost i0 = i as int;
            let t = match decode_ticket(&snap[i].1) {
                Some(t) => t,
                None => {
                    proof {
                        assert(snap@[i as int].1@ == enc_ticket(self.tk_model@[k]));
                        assert(false);
                    }
                    Ticket {
                        id: String::new(),
                        event_name: String::new(),
                        event_date: 0,
                        ticket_type: String::new(),
                        owner: caller.duplicate(),
                        is_used: false,
                    }
                },
            };
            proof {
                assert(snap@[i as int].1@ == enc_ticket(self.tk_model@[k]));
                assert(t@ == self.tk_model@[k]);
                assert(encode_utf8(t@.id) == k);
            }
            if crate::types::bytes_eq(&t.owner.bytes, &caller.bytes) {
                proof {
                    assert(owned_ticket_keys(m, caller@).contains(k));
                    assert(!seen.contains(k));
                    seen = seen.insert(k);
                }
                out.push(t);
            }
            i = i + 1;
            proof {
                assert forall|x: Seq<u8>| #[trigger] seen.contains(x) implies ((exists|q: int|
                    0 <= q < i && snap@[q].0@ == x) && (exists|oi: int|
                    0 <= oi < out@.len() && encode_utf8(out@[oi]@.id) == x)) by {
                    if seen0.contains(x) {
                        let q = choose|q: int| 0 <= q < i0 && snap@[q].0@ == x;
                        assert(0 <= q < i && snap@[q].0@ == x);
                        let oi = choose|oi: int|
                            0 <= oi < out0.len() && encode_utf8(out0[oi]@.id) == x;
                        assert(out@[oi] == out0[oi]);
                        assert(0 <= oi < out@.len() && encode_utf8(out@[oi]@.id) == x);
                    } else {
                        assert(x == k);
                        assert(0 <= i0 < i && snap@[i0].0@ == x);
                        assert(encode_utf8(out@[out@.len() - 1]@.id) == x);
                    }
                }
            }
        }
        proof {
            assert(seen =~= owned_ticket_keys(m, caller@)) by {
                assert forall|x: Seq<u8>|
                    owned_ticket_keys(m, caller@).contains(x) implies seen.contains(x) by {
                    assert(m.tickets.dom().contains(x));
                    assert(self.tickets.contents().dom().contains(x));
                    let q = choose|q: int| 0 <= q < snap@.len() && #[trigger] snap@[q].0@ == x;
                    assert(m.tickets[snap@[q].0@].owner == caller@);
                }
            }
        }
        out
    }

    /// Every world created by the caller, active or not: a scan-filter on
    /// the creator field.
    pub fn get_user_vr_worlds(&self, caller: &Identity) -> (r: Vec<VRWorld>)
        requires
            self.wf(),
        ensures
            r@.len() == created_world_keys(self.model(), caller@).len(),
            forall|i: int|
                0 <= i < r@.len() ==> ((#[trigger] r@[i])@.creator == caller@
                    && self.model().worlds.dom().contains(encode_utf8(r@[i]@.id))
                    && self.model().worlds[encode_utf8(r@[i]@.id)] == r@[i]@),
            forall|i: int, j: int|
                0 <= i < j < r@.len() ==> #[trigger] r@[i]@.id != #[trigger] r@[j]@.id,
            forall|k: Seq<u8>| #[trigger]
                created_world_keys(self.model(), caller@).contains(k) ==> exists|i: int|
                    0 <= i < r@.len() && #[trigger] encode_utf8(r@[i]@.id) == k,
    {
        let snap = self.worlds.snapshot();
        let n = snap.len();
        let mut out: Vec<VRWorld> = Vec::new();
        let ghost m = self.model();
        let ghost mut seen = Set::<Seq<u8>>::empty();
        let mut i: usize = 0;
        while i < n
            invariant
                self.wf(),
                m == self.model(),
                n == snap@.len(),
                i <= n,
                snap@.len() == self.worlds.contents().dom().len(),
                forall|q: int|
                    0 <= q < snap@.len() ==> self.worlds.contents().dom().contains(
                        #[trigger] snap@[q].0@,
                    ) && self.worlds.contents()[snap@[q].0@] == snap@[q].1@,
                forall|q: int, p: int|
                    0 <= q < p < snap@.len() ==> #[trigger] snap@[q].0@ != #[trigger] snap@[p].0@,
                forall|k: Seq<u8>|
                    self.worlds.contents().dom().contains(k) ==> exists|q: int|
                        0 <= q < snap@.len() && #[trigger] snap@[q].0@ == k,
                seen.finite(),
                out@.len() == seen.len(),
                forall|x: Seq<u8>| #[trigger]
                    seen.contains(x) ==> (created_world_keys(m, caller@).contains(x) && (exists|
                        q: int,
                    |
                        0 <= q < i && snap@[q].0@ == x) && (exists|oi: int|
                        0 <= oi < out@.len() && encode_utf8(out@[oi]@.id) == x)),
                forall|q: int|
                    0 <= q < i ==> (m.worlds[#[trigger] snap@[q].0@].creator == caller@
                        ==> seen.contains(snap@[q].0@)),
                forall|oi: int|
                    0 <= oi < out@.len() ==> ((#[trigger] out@[oi])@.creator == caller@
                        && m.worlds.dom().contains(encode_utf8(out@[oi]@.id))
                        && m.worlds[encode_utf8(out@[oi]@.id)] == out@[oi]@ && seen.contains(
                        encode_utf8(out@[oi]@.id),
                    )),
                forall|oi: int, oj: int|
                    0 <= oi < oj < out@.len() ==> #[trigger] out@[oi]@.id != #[trigger] out@[
                        oj
                    ]@.id,
            decreases n - i,
        {
            let ghost k = snap@[i as int].0@;
            let ghost seen0 = seen;
            let ghost out0 = out@;
            let ghost i0 = i as int;
            let w = match decode_world(&snap[i].1) {
                Some(w) => w,
                None => {
                    proof {
                        assert(snap@[i as int].1@ == enc_world(self.wd_model@[k]));
                        assert(false);
                    }
                    VRWorld {
                        id: String::new(),
                        name: String::new(),
                        description: String::new(),
                        creator: caller.duplicate(),
                        created_at: 0,
                        is_active: false,
                        participants: Vec::new(),
                    }
                },
            };
            proof {
                assert(snap@[i as int].1@ == enc_world(self.wd_model@[k]));
                assert(w@ == self.wd_model@[k]);
                assert(encode_utf8(w@.id) == k);
            }
            if crate::types::bytes_eq(&w.creator.bytes, &caller.bytes) {
                proof {
                    assert(created_world_keys(m, caller@).contains(k));
                    assert(!seen.contains(k));
                    seen = seen.insert(k);
                }
                out.push(w);
            }
            i = i + 1;
            proof {
                assert forall|x: Seq<u8>| #[trigger] seen.contains(x) implies ((exists|q: int|
                    0 <= q < i && snap@[q].0@ == x) && (exists|oi: int|
                    0 <= oi < out@.len() && encode_utf8(out@[oi]@.id) == x)) by {
                    if seen0.contains(x) {
                        let q = choose|q: int| 0 <= q < i0 && snap@[q].0@ == x;
                        assert(0 <= q < i && snap@[q].0@ == x);
                        let oi = choose|oi: int|
                            0 <= oi < out0.len() && encode_utf8(out0[oi]@.id) == x;
                        assert(out@[oi] == out0[oi]);
                        assert(0 <= oi < out@.len() && encode_utf8(out@[oi]@.id) == x);
                    } else {
                        assert(x == k);
                        assert(0 <= i0 < i && snap@[i0].0@ == x);
                        assert(encode_utf8(out@[out@.len() - 1]@.id) == x);
                    }
                }
            }
        }
        proof {
            assert(seen =~= created_world_keys(m, caller@)) by {
                assert forall|x: Seq<u8>|
                    created_world_keys(m, caller@).contains(x) implies seen.contains(x) by {
                    assert(m.worlds.dom().contains(x));
                    assert(self.worlds.contents().dom().contains(x));
                    let q = choose|q: int| 0 <= q < snap@.len() && #[trigger] snap@[q].0@ == x;
                    assert(m.worlds[snap@[q].0@].creator == caller@);
                }
            }
        }
        out
    }

    /// Every active world, whoever created it: a scan-filter on the
    /// `is_active` flag.
    pub fn get_all_vr_worlds(&self) -> (r: Vec<VRWorld>)
        requires
            self.wf(),
        ensures
            r@.len() == active_world_keys(self.model()).len(),
            forall|i: int|
                0 <= i < r@.len() ==> ((#[trigger] r@[i])@.is_active
                    && self.model().worlds.dom().contains(encode_utf8(r@[i]@.id))
                    && self.model().worlds[encode_utf8(r@[i]@.id)] == r@[i]@),
            forall|i: int, j: int|
                0 <= i < j < r@.len() ==> #[trigger] r@[i]@.id != #[trigger] r@[j]@.id,
            forall|k: Seq<u8>| #[trigger]
                active_world_keys(self.model()).contains(k) ==> exists|i: int|
                    0 <= i < r@.len() && #[trigger] encode_utf8(r@[i]@.id) == k,
    {
        let snap = self.worlds.snapshot();
        let n = snap.len();
        let mut out: Vec<VRWorld> = Vec::new();
        let ghost m = self.model();
        let ghost mut seen = Set::<Seq<u8>>::empty();
        let mut i: usize = 0;
        while i < n
            invariant
                self.wf(),
                m == self.model(),
                n == snap@.len(),
                i <= n,
                snap@.len() == self.worlds.contents().dom().len(),
                forall|q: int|
                    0 <= q < snap@.len() ==> self.worlds.contents().dom().contains(
                        #[trigger] snap@[q].0@,
                    ) && self.worlds.contents()[snap@[q].0@] == snap@[q].1@,
                forall|q: int, p: int|
                    0 <= q < p < snap@.len() ==> #[trigger] snap@[q].0@ != #[trigger] snap@[p].0@,
                forall|k: Seq<u8>|
                    self.worlds.contents().dom().contains(k) ==> exists|q: int|
                        0 <= q < snap@.len() && #[trigger] snap@[q].0@ == k,
                seen.finite(),
                out@.len() == seen.len(),
                forall|x: Seq<u8>| #[trigger]
                    seen.contains(x) ==> (active_world_keys(m).contains(x) && (exists|q: int|
                        0 <= q < i && snap@[q].0@ == x) && (exists|oi: int|
                        0 <= oi < out@.len() && encode_utf8(out@[oi]@.id) == x)),
                forall|q: int|
                    0 <= q < i ==> (m.worlds[#[trigger] snap@[q].0@].is_active ==> seen.contains(
                        snap@[q].0@,
                    )),
                forall|oi: int|
                    0 <= oi < out@.len() ==> ((#[trigger] out@[oi])@.is_active
                        && m.worlds.dom().contains(encode_utf8(out@[oi]@.id))
                        && m.worlds[encode_utf8(out@[oi]@.id)] == out@[oi]@ && seen.contains(
                        encode_utf8(out@[oi]@.id),
                    )),
                forall|oi: int, oj: int|
                    0 <= oi < oj < out@.len() ==> #[trigger] out@[oi]@.id != #[trigger] out@[
                        oj
                    ]@.id,
            decreases n - i,
        {
            let ghost k = snap@[i as int].0@;
            let ghost seen0 = seen;
            let ghost out0 = out@;
            let ghost i0 = i as int;
            let w = match decode_world(&snap[i].1) {
                Some(w) => w,
                None => {
                    proof {
                        assert(snap@[i as int].1@ == enc_world(self.wd_model@[k]));
                        assert(false);
                    }
                    VRWorld {
                        id: String::new(),
                        name: String::new(),
                        description: String::new(),
                        creator: Identity { bytes: Vec::new() },
                        created_at: 0,
                        is_active: false,
                        participants: Vec::new(),
                    }
                },
            };
            proof {
                assert(snap@[i as int].1@ == enc_world(self.wd_model@[k]));
                assert(w@ == self.wd_model@[k]);
                assert(encode_utf8(w@.id) == k);
            }
            if w.is_active {
                proof {
                    assert(active_world_keys(m).contains(k));
                    assert(!seen.contains(k));
                    seen = seen.insert(k);
                }
                out.push(w);
            }
            i = i + 1;
            proof {
                assert forall|x: Seq<u8>| #[trigger] seen.contains(x) implies ((exists|q: int|
                    0 <= q < i && snap@[q].0@ == x) && (exists|oi: int|
                    0 <= oi < out@.len() && encode_utf8(out@[oi]@.id) == x)) by {
                    if seen0.contains(x) {
                        let q = choose|q: int| 0 <= q < i0 && snap@[q].0@ == x;
                        assert(0 <= q < i && snap@[q].0@ == x);
                        let oi = choose|oi: int|
                            0 <= oi < out0.len() && encode_utf8(out0[oi]@.id) == x;
                        assert(out@[oi] == out0[oi]);
                        assert(0 <= oi < out@.len() && encode_utf8(out@[oi]@.id) == x);
                    } else {
                        assert(x == k);
                        assert(0 <= i0 < i && snap@[i0].0@ == x);
                        assert(encode_utf8(out@[out@.len() - 1]@.id) == x);
                    }
                }
            }
        }
        proof {
            assert(seen =~= active_world_keys(m)) by {
                assert forall|x: Seq<u8>| active_world_keys(m).contains(x) implies seen.contains(
                    x,
                ) by {
                    assert(m.worlds.dom().contains(x));
                    assert(self.worlds.contents().dom().contains(x));
                    let q = choose|q: int| 0 <= q < snap@.len() && #[trigger] snap@[q].0@ == x;
                    assert(m.worlds[snap@[q].0@].is_active);
                }
            }
        }
        out
    }

    /// The number of tickets ever minted.
    pub fn get_total_tickets(&self) -> (r: u64)
        requires
            self.wf(),
        ensures
            r as nat == self.model().tickets.dom().len(),
    {
        self.tickets.len()
    }

    /// The number of identities holding an avatar.
    pub fn get_total_avatars(&self) -> (r: u64)
        requires
            self.wf(),
        ensures
            r as nat == self.model().avatars.dom().len(),
    {
        self.avatars.len()
    }

    /// The number of worlds ever created.
    pub fn get_total_vr_worlds(&self) -> (r: u64)
        requires
            self.wf(),
        ensures
            r as nat == self.model().worlds.dom().len(),
    {
        self.worlds.len()
    }

    /// A well-formed store's abstract state obeys the key discipline, so
    /// the trace laws apply to every reachable state.
    pub proof fn lemma_wf_model_keys_ok(&self)
        requires
            self.wf(),
        ensures
            model_keys_ok(self.model()),
    {
    }

    /// The caller's composed view: avatar, owned tickets, created worlds,
    /// stamped with the query-time `now`.  It always succeeds; an identity
    /// with no records yields an empty view.
    pub fn get_user(&self, caller: &Identity, now: u64) -> (r: User)
        requires
            self.wf(),
        ensures
            r.id@ == caller@,
            r.created_at == now,
            r.avatar is Some <==> self.model().avatars.dom().contains(caller@),
            r.avatar is Some ==> r.avatar->Some_0@ == self.model().avatars[caller@],
            r.tickets@.len() == owned_ticket_keys(self.model(), caller@).len(),
            forall|i: int|
                0 <= i < r.tickets@.len() ==> ((#[trigger] r.tickets@[i])@.owner == caller@
                    && self.model().tickets.dom().contains(encode_utf8(r.tickets@[i]@.id))
                    && self.model().tickets[encode_utf8(r.tickets@[i]@.id)] == r.tickets@[i]@),
            forall|i: int, j: int|
                0 <= i < j < r.tickets@.len() ==> #[trigger] r.tickets@[i]@.id
                    != #[trigger] r.tickets@[j]@.id,
            forall|k: Seq<u8>| #[trigger]
                owned_ticket_keys(self.model(), caller@).contains(k) ==> exists|i: int|
                    0 <= i < r.tickets@.len() && #[trigger] encode_utf8(r.tickets@[i]@.id) == k,
            r.vr_worlds@.len() == created_world_keys(self.model(), caller@).len(),
            forall|i: int|
                0 <= i < r.vr_worlds@.len() ==> ((#[trigger] r.vr_worlds@[i])@.creator == caller@
                    && self.model().worlds.dom().contains(encode_utf8(r.vr_worlds@[i]@.id))
                    && self.model().worlds[encode_utf8(r.vr_worlds@[i]@.id)]
                    == r.vr_worlds@[i]@),
            forall|i: int, j: int|
                0 <= i < j < r.vr_worlds@.len() ==> #[trigger] r.vr_worlds@[i]@.id
                    != #[trigger] r.vr_worlds@[j]@.id,
            forall|k: Seq<u8>| #[trigger]
                created_world_keys(self.model(), caller@).contains(k) ==> exists|i: int|
                    0 <= i < r.vr_worlds@.len() && #[trigger] encode_utf8(r.vr_worlds@[i]@.id)
                        == k,
    {
        User {
            id: caller.duplicate(),
            avatar: self.get_avatar(caller),
            tickets: self.get_tickets(caller),
            vr_worlds: self.get_user_vr_worlds(caller),
            created_at: now,
        }
    }
}

/// What creating an avatar does to the abstract state, and what it returns:
/// an existing avatar is returned unchanged; otherwise a fresh record is
/// minted from the next counter value and stored under the owner.
pub open spec fn spec_create_avatar(
    m: StoreModel,
    owner: Seq<u8>,
    name: Seq<char>,
    color: Seq<char>,
    accessory: Seq<char>,
) -> (StoreModel, AvatarV) {
    if m.avatars.dom().contains(owner) {
        (m, m.avatars[owner])
    } else {
        let a = AvatarV {
            id: avatar_id((m.avatar_counter + 1) as u64),
            name,
            color,
            accessory,
            owner,
        };
        (
            StoreModel {
                avatars: m.avatars.insert(owner, a),
                avatar_counter: (m.avatar_counter + 1) as u64,
                ..m
            },
            a,
        )
    }
}

/// What minting a ticket does: always a fresh record under a fresh key.
pub open spec fn spec_mint_ticket(
    m: StoreModel,
    owner: Seq<u8>,
    event_name: Seq<char>,
    event_date: u64,
    ticket_type: Seq<char>,
) -> (StoreModel, TicketV) {
    let j = (m.ticket_counter + 1) as u64;
    let t = TicketV { id: ticket_id(j), event_name, event_date, ticket_type, owner, is_used: false };
    (StoreModel { tickets: m.tickets.insert(ticket_key(j), t), ticket_counter: j, ..m }, t)
}

/// What creating a world does: a fresh, active record whose participant set
/// is exactly its creator.
pub open spec fn spec_create_vr_world(
    m: StoreModel,
    creator: Seq<u8>,
    name: Seq<char>,
    description: Seq<char>,
    now: u64,
) -> (StoreModel, VRWorldV) {
    let j = (m.world_counter + 1) as u64;
    let w = VRWorldV {
        id: world_id(j),
        name,
        description,
        creator,
        created_at: now,
        is_active: true,
        participants: seq![creator],
    };
    (StoreModel { worlds: m.worlds.insert(world_key(j), w), world_counter: j, ..m }, w)
}

/// What joining a world does: an unknown identifier changes nothing and
/// reports `false`; a known one reports `true`, adding the caller to the
/// participants unless already among them.
pub open spec fn spec_join(m: StoreModel, world: Seq<char>, caller: Seq<u8>) -> (StoreModel, bool) {
    let key = encode_utf8(world);
    if !m.worlds.dom().contains(key) {
        (m, false)
    } else if m.worlds[key].participants.contains(caller) {
        (m, true)
    } else {
        let w = m.worlds[key];
        let w2 = VRWorldV { participants: w.participants.push(caller), ..w };
        (StoreModel { worlds: m.worlds.insert(key, w2), ..m }, true)
    }
}

/// The caller's own identity, echoed back.
pub fn whoami(caller: Identity) -> (r: Identity)
    ensures
        r == caller,
{
    caller
}

/// The three counter keys name distinct entries.
pub proof fn lemma_counter_keys_distinct()
    ensures
        avatar_counter_key() != ticket_counter_key(),
        avatar_counter_key() != world_counter_key(),
        ticket_counter_key() != world_counter_key(),
{
    assert(avatar_counter_key()[0] == 0);
    assert(ticket_counter_key()[0] == 1);
    assert(world_counter_key()[0] == 2);
}

/// A one-byte region key.
fn counter_key_bytes(tag: u8) -> (r: Vec<u8>)
    ensures
        r@ == seq![tag],
{
    let mut v: Vec<u8> = Vec::new();
    v.push(tag);
    proof {
        assert(v@ =~= seq![tag]);
    }
    v
}

/// The ASCII bytes of the avatar identifier prefix.
fn avatar_prefix_bytes() -> (r: Vec<u8>)
    ensures
        r@.map(|i: int, b: u8| b as char) == avatar_prefix(),
        forall|i: int| 0 <= i < r@.len() ==> #[trigger] r@[i] < 128,
{
    let v: Vec<u8> = vec![97, 118, 97, 116, 97, 114, 95];
    proof {
        assert(v@.map(|i: int, b: u8| b as char) =~= avatar_prefix());
    }
    v
}

/// The ASCII bytes of the ticket identifier prefix.
fn ticket_prefix_bytes() -> (r: Vec<u8>)
    ensures
        r@.map(|i: int, b: u8| b as char) == ticket_prefix(),
        forall|i: int| 0 <= i < r@.len() ==> #[trigger] r@[i] < 128,
{
    let v: Vec<u8> = vec![116, 105, 99, 107, 101, 116, 95];
    proof {
        assert(v@.map(|i: int, b: u8| b as char) =~= ticket_prefix());
    }
    v
}

/// The ASCII bytes of the world identifier prefix.
fn world_prefix_bytes() -> (r: Vec<u8>)
    ensures
        r@.map(|i: int, b: u8| b as char) == world_prefix(),
        forall|i: int| 0 <= i < r@.len() ==> #[trigger] r@[i] < 128,
{
    let v: Vec<u8> = vec![118, 114, 95, 119, 111, 114, 108, 100, 95];
    proof {
        assert(v@.map(|i: int, b: u8| b as char) =~= world_prefix());
    }
    v
}

/// Whether `x` is among the identities of `v`.
fn ids_contain(v: &Vec<Identity>, x: &Identity) -> (r: bool)
    ensures
        r == v.deep_view().contains(x@),
{
    let n = v.len();
    let mut i: usize = 0;
    while i < n
        invariant
            n == v@.len(),
            i <= n,
            forall|k: int| 0 <= k < i ==> v@[k]@ != x@,
        decreases n - i,
    {
        if crate::types::bytes_eq(&v[i].bytes, &x.bytes) {
            proof {
                assert(v.deep_view()[i as int] == x@);
            }
            return true;
        }
        i = i + 1;
    }
    proof {
        if v.deep_view().contains(x@) {
            let w = choose|w: int| 0 <= w < v.deep_view().len() && v.deep_view()[w] == x@;
            assert(v@[w]@ == x@);
        }
    }
    false
}

/// Reads the counter stored under `key`; zero when none was persisted yet.
fn read_counter(m: &RegionMap, key: &Vec<u8>) -> (r: u64)
    requires
        m.wf(),
        forall|k: Seq<u8>| #[trigger]
            m.contents().dom().contains(k) ==> exists|n: u64| m.contents()[k] == enc_u64(n),
    ensures
        r == counter_of(m.contents(), key@),
{
    match m.get(key) {
        Some(v) => {
            proof {
                let n = choose|n: u64| m.contents()[key@] == enc_u64(n);
                lemma_le_val_enc(n);
            }
            match u64_from_field(&v) {
                Some(x) => x,
                None => {
                    proof {
                        assert(false);
                    }
                    0
                },
            }
        },
        None => 0,
    }
}

/// Stores counter value `n` under `key`.
fn write_counter(m: &mut RegionMap, key: Vec<u8>, n: u64)
    requires
        old(m).wf(),
        forall|k: Seq<u8>| #[trigger]
            old(m).contents().dom().contains(k) ==> exists|nn: u64| old(m).contents()[k]
                == enc_u64(nn),
    ensures
        final(m).wf(),
        final(m).is_stable() == old(m).is_stable(),
        final(m).region_token() == old(m).region_token(),
        final(m).region_tag() == old(m).region_tag(),
        final(m).contents() == old(m).contents().insert(key@, enc_u64(n)),
        forall|k: Seq<u8>| #[trigger]
            final(m).contents().dom().contains(k) ==> exists|nn: u64| final(m).contents()[k]
                == enc_u64(nn),
        counter_of(final(m).contents(), key@) == n,
        forall|k2: Seq<u8>|
            k2 != key@ ==> #[trigger] counter_of(final(m).contents(), k2) == counter_of(
                old(m).contents(),
                k2,
            ),
    {
    let v = u64_field(n);
    m.insert(key, v);
    proof {
        lemma_le_val_enc(n);
    }
}

} // verus!
