//! The entities the store keeps, and their mathematical views.

use vstd::prelude::*;

verus! {

/// An opaque caller identity: a comparable, hashable token supplied by the
/// dispatcher.  The store never authenticates it.
pub struct Identity {
    pub bytes: Vec<u8>,
}

impl View for Identity {
    type V = Seq<u8>;

    open spec fn view(&self) -> Seq<u8> {
        self.bytes@
    }
}

impl DeepView for Identity {
    type V = Seq<u8>;

    open spec fn deep_view(&self) -> Seq<u8> {
        self.bytes@
    }
}

/// Byte-for-byte copy, written as a loop so its contract is proved.
pub fn copy_bytes(src: &Vec<u8>) -> (r: Vec<u8>)
    ensures
        r@ == src@,
{
    let mut out: Vec<u8> = Vec::new();
    let mut i: usize = 0;
    let len = src.len();
    while i < len
        invariant
            len == src@.len(),
            i <= len,
            out@ == src@.subrange(0, i as int),
        decreases len - i,
    {
        out.push(src[i]);
        i = i + 1;
        proof {
            assert(out@ =~= src@.subrange(0, i as int));
        }
    }
    proof {
        assert(out@ =~= src@);
    }
    out
}

/// Byte-for-byte equality of two byte vectors.
pub fn bytes_eq(a: &Vec<u8>, b: &Vec<u8>) -> (r: bool)
    ensures
        r == (a@ == b@),
{
    let alen = a.len();
    if alen != b.len() {
        proof {
            assert(a@ != b@);
        }
        return false;
    }
    let mut i: usize = 0;
    while i < alen
        invariant
            alen == a@.len() == b@.len(),
            i <= alen,
            forall|k: int| 0 <= k < i ==> a@[k] == b@[k],
        decreases alen - i,
    {
        if a[i] != b[i] {
            proof {
                assert(a@[i as int] != b@[i as int]);
            }
            return false;
        }
        i = i + 1;
    }
    proof {
        assert(a@ =~= b@);
    }
    true
}

impl Identity {
    /// A fresh value holding the same token.
    pub fn duplicate(&self) -> (r: Identity)
        ensures
            r@ == self@,
    {
        Identity { bytes: copy_bytes(&self.bytes) }
    }
}

impl PartialEq for Identity {
    fn eq(&self, other: &Identity) -> (r: bool) {
        bytes_eq(&self.bytes, &other.bytes)
    }
}

impl Eq for Identity {

}

impl vstd::std_specs::cmp::PartialEqSpecImpl for Identity {
    open spec fn obeys_eq_spec() -> bool {
        true
    }

    open spec fn eq_spec(&self, other: &Identity) -> bool {
        self.bytes@ == other.bytes@
    }
}

/// The avatar record owned by one identity.
pub struct Avatar {
    pub id: String,
    pub name: String,
    pub color: String,
    pub accessory: String,
    pub owner: Identity,
}

/// The mathematical value of an [`Avatar`].
#[verifier::ext_equal]
pub ghost struct AvatarV {
    pub id: Seq<char>,
    pub name: Seq<char>,
    pub color: Seq<char>,
    pub accessory: Seq<char>,
    pub owner: Seq<u8>,
}

impl View for Avatar {
    type V = AvatarV;

    open spec fn view(&self) -> AvatarV {
        AvatarV {
            id: self.id@,
            name: self.name@,
            color: self.color@,
            accessory: self.accessory@,
            owner: self.owner@,
        }
    }
}

/// An event ticket, keyed by its own identifier and owned by its minter.
pub struct Ticket {
    pub id: String,
    pub event_name: String,
    pub event_date: u64,
    pub ticket_type: String,
    pub owner: Identity,
    pub is_used: bool,
}

/// The mathematical value of a [`Ticket`].
#[verifier::ext_equal]
pub ghost struct TicketV {
    pub id: Seq<char>,
    pub event_name: Seq<char>,
    pub event_date: u64,
    pub ticket_type: Seq<char>,
    pub owner: Seq<u8>,
    pub is_used: bool,
}

impl View for Ticket {
    type V = TicketV;

    open spec fn view(&self) -> TicketV {
        TicketV {
            id: self.id@,
            event_name: self.event_name@,
            event_date: self.event_date,
            ticket_type: self.ticket_type@,
            owner: self.owner@,
            is_used: self.is_used,
        }
    }
}

/// A shared virtual-world session with a creator and a participant set.
pub struct VRWorld {
    pub id: String,
    pub name: String,
    pub description: String,
    pub creator: Identity,
    pub created_at: u64,
    pub is_active: bool,
    pub participants: Vec<Identity>,
}

/// The mathematical value of a [`VRWorld`].
#[verifier::ext_equal]
pub ghost struct VRWorldV {
    pub id: Seq<char>,
    pub name: Seq<char>,
    pub description: Seq<char>,
    pub creator: Seq<u8>,
    pub created_at: u64,
    pub is_active: bool,
    pub participants: Seq<Seq<u8>>,
}

impl View for VRWorld {
    type V = VRWorldV;

    open spec fn view(&self) -> VRWorldV {
        VRWorldV {
            id: self.id@,
            name: self.name@,
            description: self.description@,
            creator: self.creator@,
            created_at: self.created_at,
            is_active: self.is_active,
            participants: self.participants.deep_view(),
        }
    }
}

/// The composed view of one caller: avatar, tickets and created worlds.
pub struct User {
    pub id: Identity,
    pub avatar: Option<Avatar>,
    pub tickets: Vec<Ticket>,
    pub vr_worlds: Vec<VRWorld>,
    pub created_at: u64,
}

} // verus!
