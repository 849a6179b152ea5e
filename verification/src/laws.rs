//! Laws of the store, proved over its abstract transitions.

use crate::store::{
    empty_model, lemma_ticket_key_injective, lemma_world_key_injective, model_keys_ok,
    owned_ticket_keys, spec_create_avatar, spec_create_vr_world, spec_join, spec_mint_ticket,
    ticket_key, world_key, StoreModel,
};
use vstd::prelude::*;
use vstd::utf8::encode_utf8;

verus! {

/// One mutating call, as abstract data, so that whole call sequences can be
/// reasoned about.
pub ghost enum StoreOp {
    CreateAvatar { owner: Seq<u8>, name: Seq<char>, color: Seq<char>, accessory: Seq<char> },
    MintTicket { owner: Seq<u8>, event_name: Seq<char>, event_date: u64, ticket_type: Seq<char> },
    CreateVrWorld { creator: Seq<u8>, name: Seq<char>, description: Seq<char>, now: u64 },
    JoinVrWorld { world: Seq<char>, caller: Seq<u8> },
}

/// The state after one call.
pub open spec fn apply_op(m: StoreModel, op: StoreOp) -> StoreModel {
    match op {
        StoreOp::CreateAvatar { owner, name, color, accessory } => spec_create_avatar(
            m,
            owner,
            name,
            color,
            accessory,
        ).0,
        StoreOp::MintTicket { owner, event_name, event_date, ticket_type } => spec_mint_ticket(
            m,
            owner,
            event_name,
            event_date,
            ticket_type,
        ).0,
        StoreOp::CreateVrWorld { creator, name, description, now } => spec_create_vr_world(
            m,
            creator,
            name,
            description,
            now,
        ).0,
        StoreOp::JoinVrWorld { world, caller } => spec_join(m, world, caller).0,
    }
}

/// The state after a sequence of calls, first call first.
pub open spec fn apply_trace(m: StoreModel, tr: Seq<StoreOp>) -> StoreModel
    decreases tr.len(),
{
    if tr.len() == 0 {
        m
    } else {
        apply_trace(apply_op(m, tr.first()), tr.drop_first())
    }
}

/// How many tickets a call sequence mints.
pub open spec fn mint_count(tr: Seq<StoreOp>) -> int
    decreases tr.len(),
{
    if tr.len() == 0 {
        0
    } else {
        (if tr.first() is MintTicket {
            1int
        } else {
            0int
        }) + mint_count(tr.drop_first())
    }
}

/// How many tickets a call sequence mints for `owner`.
pub open spec fn owner_mint_count(tr: Seq<StoreOp>, o: Seq<u8>) -> int
    decreases tr.len(),
{
    if tr.len() == 0 {
        0
    } else {
        (match tr.first() {
            StoreOp::MintTicket { owner, .. } => if owner == o {
                1int
            } else {
                0int
            },
            _ => 0int,
        }) + owner_mint_count(tr.drop_first(), o)
    }
}

/// How many worlds a call sequence creates.
pub open spec fn world_create_count(tr: Seq<StoreOp>) -> int
    decreases tr.len(),
{
    if tr.len() == 0 {
        0
    } else {
        (if tr.first() is CreateVrWorld {
            1int
        } else {
            0int
        }) + world_create_count(tr.drop_first())
    }
}

/// The set of identities for which a call sequence creates an avatar.
pub open spec fn avatar_creators(tr: Seq<StoreOp>) -> Set<Seq<u8>>
    decreases tr.len(),
{
    if tr.len() == 0 {
        Set::empty()
    } else {
        (match tr.first() {
            StoreOp::CreateAvatar { owner, .. } => avatar_creators(tr.drop_first()).insert(owner),
            _ => avatar_creators(tr.drop_first()),
        })
    }
}

/// The ticket minted next is stored under a key the state does not hold,
/// so no earlier record is touched.
pub proof fn lemma_mint_key_fresh(m: StoreModel)
    requires
        model_keys_ok(m),
        m.ticket_counter < u64::MAX,
    ensures
        !m.tickets.dom().contains(ticket_key((m.ticket_counter + 1) as u64)),
{
    let j1 = (m.ticket_counter + 1) as u64;
    if m.tickets.dom().contains(ticket_key(j1)) {
        let j = choose|j: u64| 1 <= j <= m.ticket_counter && ticket_key(j1) == ticket_key(j);
        lemma_ticket_key_injective(j1, j);
    }
}

/// As [`lemma_mint_key_fresh`], for worlds.
pub proof fn lemma_world_key_fresh(m: StoreModel)
    requires
        model_keys_ok(m),
        m.world_counter < u64::MAX,
    ensures
        !m.worlds.dom().contains(world_key((m.world_counter + 1) as u64)),
{
    let j1 = (m.world_counter + 1) as u64;
    if m.worlds.dom().contains(world_key(j1)) {
        let j = choose|j: u64| 1 <= j <= m.world_counter && world_key(j1) == world_key(j);
        lemma_world_key_injective(j1, j);
    }
}

/// The identifier of a freshly minted ticket differs from the identifier of
/// every ticket the state already holds — in particular, of every ticket
/// issued before a reload, since a persistent reload preserves the model.
pub proof fn lemma_mint_id_fresh(
    m: StoreModel,
    owner: Seq<u8>,
    event_name: Seq<char>,
    event_date: u64,
    ticket_type: Seq<char>,
)
    requires
        model_keys_ok(m),
        m.ticket_counter < u64::MAX,
    ensures
        forall|k: Seq<u8>| #[trigger]
            m.tickets.dom().contains(k) ==> m.tickets[k].id != spec_mint_ticket(
                m,
                owner,
                event_name,
                event_date,
                ticket_type,
            ).1.id,
{
    let t = spec_mint_ticket(m, owner, event_name, event_date, ticket_type).1;
    assert forall|k: Seq<u8>| #[trigger]
        m.tickets.dom().contains(k) implies m.tickets[k].id != t.id by {
        if m.tickets[k].id == t.id {
            let j = choose|j: u64| 1 <= j <= m.ticket_counter && k == ticket_key(j);
            assert(ticket_key(j) == ticket_key((m.ticket_counter + 1) as u64));
            lemma_ticket_key_injective(j, (m.ticket_counter + 1) as u64);
        }
    }
}

/// Each call keeps the key discipline and moves each counter up by at most
/// one.
pub proof fn lemma_apply_op_inv(m: StoreModel, op: StoreOp)
    requires
        model_keys_ok(m),
        m.avatar_counter < u64::MAX,
        m.ticket_counter < u64::MAX,
        m.world_counter < u64::MAX,
    ensures
        model_keys_ok(apply_op(m, op)),
        apply_op(m, op).avatar_counter <= m.avatar_counter + 1,
        apply_op(m, op).ticket_counter <= m.ticket_counter + 1,
        apply_op(m, op).world_counter <= m.world_counter + 1,
        apply_op(m, op).avatar_counter >= m.avatar_counter,
        apply_op(m, op).ticket_counter >= m.ticket_counter,
        apply_op(m, op).world_counter >= m.world_counter,
{
    let m2 = apply_op(m, op);
    match op {
        StoreOp::CreateAvatar { .. } => {
        },
        StoreOp::MintTicket { .. } => {
            let j1 = (m.ticket_counter + 1) as u64;
            assert forall|k: Seq<u8>| #[trigger]
                m2.tickets.dom().contains(k) implies encode_utf8(m2.tickets[k].id) == k && (exists|
                j: u64,
            |
                1 <= j <= m2.ticket_counter && k == ticket_key(j)) by {
                if k != ticket_key(j1) {
                    let j = choose|j: u64| 1 <= j <= m.ticket_counter && k == ticket_key(j);
                    assert(1 <= j <= m2.ticket_counter && k == ticket_key(j));
                } else {
                    assert(1 <= j1 <= m2.ticket_counter && k == ticket_key(j1));
                }
            }
        },
        StoreOp::CreateVrWorld { .. } => {
            let j1 = (m.world_counter + 1) as u64;
            assert forall|k: Seq<u8>| #[trigger]
                m2.worlds.dom().contains(k) implies encode_utf8(m2.worlds[k].id) == k && (exists|
                j: u64,
            |
                1 <= j <= m2.world_counter && k == world_key(j)) by {
                if k != world_key(j1) {
                    let j = choose|j: u64| 1 <= j <= m.world_counter && k == world_key(j);
                    assert(1 <= j <= m2.world_counter && k == world_key(j));
                } else {
                    assert(1 <= j1 <= m2.world_counter && k == world_key(j1));
                }
            }
        },
        StoreOp::JoinVrWorld { world, caller } => {
            assert(m2.worlds.dom() =~= m.worlds.dom());
        },
    }
}

/// Over any call sequence, the totals move exactly with the successful
/// calls: the ticket count grows by the number of mints, the world count by
/// the number of world creations, and the avatar map holds exactly the old
/// identities and those that created an avatar — however often each one
/// repeated its creation.
pub proof fn lemma_trace_totals(m: StoreModel, tr: Seq<StoreOp>)
    requires
        model_keys_ok(m),
        m.avatar_counter + tr.len() <= u64::MAX,
        m.ticket_counter + tr.len() <= u64::MAX,
        m.world_counter + tr.len() <= u64::MAX,
    ensures
        model_keys_ok(apply_trace(m, tr)),
        apply_trace(m, tr).tickets.dom().len() == m.tickets.dom().len() + mint_count(tr),
        apply_trace(m, tr).worlds.dom().len() == m.worlds.dom().len() + world_create_count(tr),
        apply_trace(m, tr).avatars.dom() == m.avatars.dom().union(avatar_creators(tr)),
    decreases tr.len(),
{
    if tr.len() == 0 {
        assert(m.avatars.dom().union(avatar_creators(tr)) =~= m.avatars.dom());
    } else {
        let op = tr.first();
        let m1 = apply_op(m, op);
        lemma_apply_op_inv(m, op);
        match op {
            StoreOp::MintTicket { .. } => {
                lemma_mint_key_fresh(m);
                assert(m1.tickets.dom().len() == m.tickets.dom().len() + 1);
            },
            StoreOp::CreateVrWorld { .. } => {
                lemma_world_key_fresh(m);
                assert(m1.worlds.dom().len() == m.worlds.dom().len() + 1);
            },
            StoreOp::CreateAvatar { owner, .. } => {
                assert(m1.avatars.dom() =~= m.avatars.dom().insert(owner));
            },
            StoreOp::JoinVrWorld { .. } => {
                assert(m1.worlds.dom() =~= m.worlds.dom());
            },
        }
        lemma_trace_totals(m1, tr.drop_first());
        assert(m.avatars.dom().union(avatar_creators(tr)) =~= m1.avatars.dom().union(
            avatar_creators(tr.drop_first()),
        ));
    }
}

/// From an empty store: after any call sequence, the ticket total is the
/// number of mints, the world total is the number of world creations, and
/// the avatar total is the number of distinct identities that created one.
pub proof fn lemma_trace_totals_from_empty(tr: Seq<StoreOp>)
    requires
        tr.len() <= u64::MAX,
    ensures
        apply_trace(empty_model(), tr).tickets.dom().len() == mint_count(tr),
        apply_trace(empty_model(), tr).worlds.dom().len() == world_create_count(tr),
        apply_trace(empty_model(), tr).avatars.dom() == avatar_creators(tr),
{
    assert(empty_model().tickets.dom() =~= Set::<Seq<u8>>::empty());
    assert(empty_model().worlds.dom() =~= Set::<Seq<u8>>::empty());
    assert(empty_model().avatars.dom() =~= Set::<Seq<u8>>::empty());
    lemma_trace_totals(empty_model(), tr);
    assert(empty_model().avatars.dom().union(avatar_creators(tr)) =~= avatar_creators(tr));
}

/// Over any call sequence, an identity's owned-ticket set grows by exactly
/// the number of tickets minted for it, whatever is minted for others and
/// whatever else happens in between.
pub proof fn lemma_trace_owned_tickets(m: StoreModel, tr: Seq<StoreOp>, o: Seq<u8>)
    requires
        model_keys_ok(m),
        m.avatar_counter + tr.len() <= u64::MAX,
        m.ticket_counter + tr.len() <= u64::MAX,
        m.world_counter + tr.len() <= u64::MAX,
    ensures
        owned_ticket_keys(apply_trace(m, tr), o).len() == owned_ticket_keys(m, o).len()
            + owner_mint_count(tr, o),
    decreases tr.len(),
{
    if tr.len() > 0 {
        let op = tr.first();
        let m1 = apply_op(m, op);
        lemma_apply_op_inv(m, op);
        match op {
            StoreOp::MintTicket { owner, event_name, event_date, ticket_type } => {
                lemma_mint_key_fresh(m);
                lemma_mint_owned_count(m, owner, event_name, event_date, ticket_type);
                if owner != o {
                    assert(owned_ticket_keys(m1, o) == owned_ticket_keys(m, o));
                }
            },
            StoreOp::CreateAvatar { .. } => {
                assert(owned_ticket_keys(m1, o) =~= owned_ticket_keys(m, o));
            },
            StoreOp::CreateVrWorld { .. } => {
                assert(owned_ticket_keys(m1, o) =~= owned_ticket_keys(m, o));
            },
            StoreOp::JoinVrWorld { .. } => {
                assert(owned_ticket_keys(m1, o) =~= owned_ticket_keys(m, o));
            },
        }
        lemma_trace_owned_tickets(m1, tr.drop_first(), o);
    }
}

/// Creating an avatar is idempotent: a second creation by the same
/// identity, with any arguments, returns the same record, changes nothing,
/// and the stored record keeps the first call's arguments.
pub proof fn lemma_create_avatar_idempotent(
    m: StoreModel,
    owner: Seq<u8>,
    name1: Seq<char>,
    color1: Seq<char>,
    accessory1: Seq<char>,
    name2: Seq<char>,
    color2: Seq<char>,
    accessory2: Seq<char>,
)
    ensures
        ({
            let (m1, a1) = spec_create_avatar(m, owner, name1, color1, accessory1);
            let (m2, a2) = spec_create_avatar(m1, owner, name2, color2, accessory2);
            &&& a2 == a1
            &&& a2.id == a1.id
            &&& m2 == m1
            &&& m1.avatars[owner] == a1
            &&& !m.avatars.dom().contains(owner) ==> a1.name == name1 && a1.color == color1
                && a1.accessory == accessory1 && a1.owner == owner
        }),
{
    let (m1, a1) = spec_create_avatar(m, owner, name1, color1, accessory1);
    if !m.avatars.dom().contains(owner) {
        assert(m1.avatars.dom().contains(owner));
        assert(m1.avatars[owner] == a1);
    }
}

/// Joining a known world twice reports success both times, the second join
/// changes nothing, and the participant set grows by at most one member in
/// total.
pub proof fn lemma_join_idempotent(m: StoreModel, world: Seq<char>, caller: Seq<u8>)
    requires
        m.worlds.dom().contains(encode_utf8(world)),
    ensures
        ({
            let key = encode_utf8(world);
            let (m1, r1) = spec_join(m, world, caller);
            let (m2, r2) = spec_join(m1, world, caller);
            &&& r1 && r2
            &&& m2 == m1
            &&& m1.worlds[key].participants.len() <= m.worlds[key].participants.len() + 1
            &&& m2.worlds[key].participants == m1.worlds[key].participants
            &&& m1.worlds[key].participants.contains(caller)
        }),
{
    let key = encode_utf8(world);
    let (m1, r1) = spec_join(m, world, caller);
    if !m.worlds[key].participants.contains(caller) {
        let w2 = m1.worlds[key];
        assert(w2.participants == m.worlds[key].participants.push(caller));
        assert(w2.participants[w2.participants.len() - 1] == caller);
        assert(w2.participants.contains(caller));
    }
    let (m2, r2) = spec_join(m1, world, caller);
    assert(m2 == m1);
}

/// Joining an unknown world identifier reports failure and changes nothing:
/// no world appears and no counter moves.
pub proof fn lemma_join_unknown(m: StoreModel, world: Seq<char>, caller: Seq<u8>)
    requires
        !m.worlds.dom().contains(encode_utf8(world)),
    ensures
        spec_join(m, world, caller).0 == m,
        !spec_join(m, world, caller).1,
{
}

/// Minting a ticket grows the owner's owned set by exactly one and leaves
/// every other identity's owned set unchanged.
pub proof fn lemma_mint_owned_count(
    m: StoreModel,
    owner: Seq<u8>,
    event_name: Seq<char>,
    event_date: u64,
    ticket_type: Seq<char>,
)
    requires
        m.tickets.dom().finite(),
        !m.tickets.dom().contains(ticket_key((m.ticket_counter + 1) as u64)),
    ensures
        ({
            let (m2, t) = spec_mint_ticket(m, owner, event_name, event_date, ticket_type);
            &&& t.owner == owner
            &&& owned_ticket_keys(m2, owner).len() == owned_ticket_keys(m, owner).len() + 1
            &&& forall|other: Seq<u8>|
                other != owner ==> #[trigger] owned_ticket_keys(m2, other) == owned_ticket_keys(
                    m,
                    other,
                )
        }),
{
    let key = ticket_key((m.ticket_counter + 1) as u64);
    let (m2, t) = spec_mint_ticket(m, owner, event_name, event_date, ticket_type);
    m.tickets.dom().lemma_len_filter(|k: Seq<u8>| m.tickets[k].owner == owner);
    assert(owned_ticket_keys(m2, owner) =~= owned_ticket_keys(m, owner).insert(key));
    assert(!owned_ticket_keys(m, owner).contains(key));
    assert forall|other: Seq<u8>| other != owner implies #[trigger] owned_ticket_keys(m2, other)
        == owned_ticket_keys(m, other) by {
        assert(owned_ticket_keys(m2, other) =~= owned_ticket_keys(m, other));
    }
}

/// The identifier service never repeats: two successive mints, by any
/// owners, carry distinct ticket identifiers, and the second leaves the
/// first's record in place.
pub proof fn lemma_mint_ids_never_repeat(
    m: StoreModel,
    owner1: Seq<u8>,
    owner2: Seq<u8>,
    event_name: Seq<char>,
    event_date: u64,
    ticket_type: Seq<char>,
)
    requires
        m.ticket_counter + 2 <= u64::MAX,
    ensures
        ({
            let (m1, t1) = spec_mint_ticket(m, owner1, event_name, event_date, ticket_type);
            let (m2, t2) = spec_mint_ticket(m1, owner2, event_name, event_date, ticket_type);
            &&& t1.id != t2.id
            &&& m2.tickets[ticket_key((m.ticket_counter + 1) as u64)] == t1
        }),
{
    let j1 = (m.ticket_counter + 1) as u64;
    let j2 = (m.ticket_counter + 2) as u64;
    let (m1, t1) = spec_mint_ticket(m, owner1, event_name, event_date, ticket_type);
    let (m2, t2) = spec_mint_ticket(m1, owner2, event_name, event_date, ticket_type);
    if t1.id == t2.id {
        assert(ticket_key(j1) == ticket_key(j2));
        crate::store::lemma_ticket_key_injective(j1, j2);
    }
    assert(ticket_key(j1) != ticket_key(j2)) by {
        if ticket_key(j1) == ticket_key(j2) {
            crate::store::lemma_ticket_key_injective(j1, j2);
        }
    }
}

/// The entity totals move exactly with the successful operations: a mint or
/// a world creation adds one record; an avatar creation adds one only for a
/// new identity, and a repeated one adds none.
pub proof fn lemma_totals(
    m: StoreModel,
    owner: Seq<u8>,
    name: Seq<char>,
    color: Seq<char>,
    accessory: Seq<char>,
    event_name: Seq<char>,
    event_date: u64,
    ticket_type: Seq<char>,
    description: Seq<char>,
    now: u64,
)
    requires
        m.avatars.dom().finite(),
        m.tickets.dom().finite(),
        m.worlds.dom().finite(),
        !m.tickets.dom().contains(ticket_key((m.ticket_counter + 1) as u64)),
        !m.worlds.dom().contains(crate::store::world_key((m.world_counter + 1) as u64)),
    ensures
        ({
            let (ma, _) = spec_create_avatar(m, owner, name, color, accessory);
            &&& m.avatars.dom().contains(owner) ==> ma.avatars.dom().len()
                == m.avatars.dom().len()
            &&& !m.avatars.dom().contains(owner) ==> ma.avatars.dom().len() == m.avatars.dom().len()
                + 1
        }),
        spec_mint_ticket(m, owner, event_name, event_date, ticket_type).0.tickets.dom().len()
            == m.tickets.dom().len() + 1,
        spec_create_vr_world(m, owner, name, description, now).0.worlds.dom().len()
            == m.worlds.dom().len() + 1,
{
}

} // verus!
