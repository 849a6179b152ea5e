//! Framing of whole records as field lists.
//!
//! A record is persisted as a field list: its strings as UTF-8 bytes, its
//! integers as eight-byte fields, its booleans as one-byte fields, and a
//! world's participants as one field each after the fixed fields.  Each
//! decoder is proved complete: it recovers the record from every encoding.

use crate::codec::{
    enc_bool, enc_bytes, enc_fields, enc_fields_rec, enc_u64, lemma_enc_fields_rec_append,
    read_bool, read_fields, read_u64, write_bytes, write_u64,
};
use crate::text::string_from_field;
use crate::types::{copy_bytes, Avatar, AvatarV, Identity, Ticket, TicketV, VRWorld, VRWorldV};
use vstd::prelude::*;
use vstd::string::StrSliceExecFns;
use vstd::utf8::encode_utf8;

verus! {

/// The field list of an avatar record.
pub open spec fn avatar_fields(a: AvatarV) -> Seq<Seq<u8>> {
    seq![
        encode_utf8(a.id),
        encode_utf8(a.name),
        encode_utf8(a.color),
        encode_utf8(a.accessory),
        a.owner,
    ]
}

/// The persisted bytes of an avatar record.
pub open spec fn enc_avatar(a: AvatarV) -> Seq<u8> {
    enc_fields(avatar_fields(a))
}

/// The field list of a ticket record.
pub open spec fn ticket_fields(t: TicketV) -> Seq<Seq<u8>> {
    seq![
        encode_utf8(t.id),
        encode_utf8(t.event_name),
        enc_u64(t.event_date),
        encode_utf8(t.ticket_type),
        t.owner,
        enc_bool(t.is_used),
    ]
}

/// The persisted bytes of a ticket record.
pub open spec fn enc_ticket(t: TicketV) -> Seq<u8> {
    enc_fields(ticket_fields(t))
}

/// The field list of a world record: six fixed fields, then one field per
/// participant.
pub open spec fn world_fields(w: VRWorldV) -> Seq<Seq<u8>> {
    seq![
        encode_utf8(w.id),
        encode_utf8(w.name),
        encode_utf8(w.description),
        w.creator,
        enc_u64(w.created_at),
        enc_bool(w.is_active),
    ] + w.participants
}

/// The persisted bytes of a world record.
pub open spec fn enc_world(w: VRWorldV) -> Seq<u8> {
    enc_fields(world_fields(w))
}

/// Writes a field list: its length, then each field length-framed.
fn write_fields(out: &mut Vec<u8>, fields: &Vec<Vec<u8>>)
    ensures
        final(out)@ == old(out)@ + enc_fields(fields.deep_view()),
{
    let n = fields.len();
    write_u64(out, n as u64);
    let mut i: usize = 0;
    while i < n
        invariant
            n == fields@.len(),
            i <= n,
            out@ == old(out)@ + enc_u64(n as u64) + enc_fields_rec(
                fields.deep_view().take(i as int),
            ),
        decreases n - i,
    {
        write_bytes(out, &fields[i]);
        proof {
            let dv = fields.deep_view();
            lemma_enc_fields_rec_append(dv.take(i as int), seq![dv[i as int]]);
            assert(dv.take(i as int + 1) =~= dv.take(i as int) + seq![dv[i as int]]);
            assert(seq![dv[i as int]].drop_first() =~= Seq::<Seq<u8>>::empty());
            assert(enc_fields_rec(Seq::<Seq<u8>>::empty()) == Seq::<u8>::empty());
            assert(enc_fields_rec(seq![dv[i as int]]) =~= enc_bytes(dv[i as int]));
            assert(fields@[i as int].deep_view() =~= fields@[i as int]@);
            assert(out@ =~= old(out)@ + enc_u64(n as u64) + enc_fields_rec(
                dv.take(i as int + 1),
            ));
        }
        i = i + 1;
    }
    proof {
        assert(fields.deep_view().take(n as int) =~= fields.deep_view());
        assert(out@ =~= old(out)@ + enc_fields(fields.deep_view()));
    }
}

/// An eight-byte field holding `n`.
pub fn u64_field(n: u64) -> (r: Vec<u8>)
    ensures
        r@ == enc_u64(n),
{
    let mut v: Vec<u8> = Vec::new();
    write_u64(&mut v, n);
    proof {
        assert(v@ =~= enc_u64(n));
    }
    v
}

/// A one-byte field holding `b`.
fn bool_field(b: bool) -> (r: Vec<u8>)
    ensures
        r@ == enc_bool(b),
{
    let mut v: Vec<u8> = Vec::new();
    v.push(if b { 1u8 } else { 0u8 });
    proof {
        assert(v@ =~= enc_bool(b));
    }
    v
}

/// Recovers an integer from an eight-byte field.
pub fn u64_from_field(f: &Vec<u8>) -> (r: Option<u64>)
    ensures
        forall|n: u64| f@ == enc_u64(n) ==> r == Some(n),
{
    proof {
        assert forall|n: u64| f@ == enc_u64(n) implies f@.len() == 8 && f@.subrange(0, 8)
            == enc_u64(n) by {
            assert(f@.subrange(0, 8) =~= f@);
        }
    }
    match read_u64(f, 0) {
        Some((n, _)) => Some(n),
        None => None,
    }
}

/// Recovers a boolean from a one-byte field.
pub fn bool_from_field(f: &Vec<u8>) -> (r: Option<bool>)
    ensures
        forall|b: bool| f@ == enc_bool(b) ==> r == Some(b),
{
    proof {
        assert forall|b: bool| f@ == enc_bool(b) implies f@.len() == 1 && f@.subrange(0, 1)
            == enc_bool(b) by {
            assert(f@.subrange(0, 1) =~= f@);
        }
    }
    match read_bool(f, 0) {
        Some((b, _)) => Some(b),
        None => None,
    }
}

/// Encodes an avatar record.
pub fn encode_avatar(a: &Avatar) -> (r: Vec<u8>)
    ensures
        r@ == enc_avatar(a@),
{
    let mut fields: Vec<Vec<u8>> = Vec::new();
    fields.push(a.id.as_str().as_bytes_vec());
    fields.push(a.name.as_str().as_bytes_vec());
    fields.push(a.color.as_str().as_bytes_vec());
    fields.push(a.accessory.as_str().as_bytes_vec());
    fields.push(copy_bytes(&a.owner.bytes));
    let mut out: Vec<u8> = Vec::new();
    write_fields(&mut out, &fields);
    proof {
        assert(fields.deep_view() =~~= avatar_fields(a@));
        assert(out@ =~= enc_avatar(a@));
    }
    out
}

/// Encodes a ticket record.
pub fn encode_ticket(t: &Ticket) -> (r: Vec<u8>)
    ensures
        r@ == enc_ticket(t@),
{
    let mut fields: Vec<Vec<u8>> = Vec::new();
    fields.push(t.id.as_str().as_bytes_vec());
    fields.push(t.event_name.as_str().as_bytes_vec());
    fields.push(u64_field(t.event_date));
    fields.push(t.ticket_type.as_str().as_bytes_vec());
    fields.push(copy_bytes(&t.owner.bytes));
    fields.push(bool_field(t.is_used));
    let mut out: Vec<u8> = Vec::new();
    write_fields(&mut out, &fields);
    proof {
        assert(fields.deep_view() =~~= ticket_fields(t@));
        assert(out@ =~= enc_ticket(t@));
    }
    out
}

/// Encodes a world record.
pub fn encode_world(w: &VRWorld) -> (r: Vec<u8>)
    ensures
        r@ == enc_world(w@),
{
    let mut fields: Vec<Vec<u8>> = Vec::new();
    fields.push(w.id.as_str().as_bytes_vec());
    fields.push(w.name.as_str().as_bytes_vec());
    fields.push(w.description.as_str().as_bytes_vec());
    fields.push(copy_bytes(&w.creator.bytes));
    fields.push(u64_field(w.created_at));
    fields.push(bool_field(w.is_active));
    proof {
        assert(fields@[0].deep_view() =~= fields@[0]@);
        assert(fields@[1].deep_view() =~= fields@[1]@);
        assert(fields@[2].deep_view() =~= fields@[2]@);
        assert(fields@[3].deep_view() =~= fields@[3]@);
        assert(fields@[4].deep_view() =~= fields@[4]@);
        assert(fields@[5].deep_view() =~= fields@[5]@);
        assert(forall|k: int|
            0 <= k < 6 ==> fields.deep_view()[k] == #[trigger] world_fields(w@)[k]);
    }
    let pn = w.participants.len();
    let mut i: usize = 0;
    while i < pn
        invariant
            pn == w.participants@.len(),
            i <= pn,
            fields@.len() == 6 + i,
            forall|k: int| 0 <= k < 6 ==> fields.deep_view()[k] == #[trigger] world_fields(w@)[k],
            forall|k: int| 0 <= k < i ==> fields@[6 + k].deep_view() == w.participants@[k]@,
        decreases pn - i,
    {
        fields.push(copy_bytes(&w.participants[i].bytes));
        i = i + 1;
    }
    let mut out: Vec<u8> = Vec::new();
    write_fields(&mut out, &fields);
    proof {
        let dv = fields.deep_view();
        let wf = world_fields(w@);
        assert(wf.len() == 6 + pn);
        assert(dv.len() == 6 + pn);
        assert forall|j: int| 0 <= j < dv.len() implies dv[j] == wf[j] by {
            if j >= 6 {
                assert(fields@[j].deep_view() == w.participants@[j - 6]@);
                assert(wf[j] == w@.participants[j - 6]);
                assert(w@.participants[j - 6] == w.participants@[j - 6].deep_view());
                assert(w.participants@[j - 6].deep_view() =~= w.participants@[j - 6]@);
            }
        }
        assert(dv =~= wf);
        assert(out@ =~= enc_world(w@));
    }
    out
}

/// Decodes an avatar record; complete for every encoded avatar.
pub fn decode_avatar(v: &Vec<u8>) -> (r: Option<Avatar>)
    ensures
        forall|a: AvatarV| v@ == enc_avatar(a) ==> r is Some && r->Some_0@ == a,
{
    proof {
        assert forall|a: AvatarV| v@ == enc_avatar(a) implies 0 + enc_fields(
            avatar_fields(a),
        ).len() <= v@.len() && v@.subrange(0, 0 + enc_fields(avatar_fields(a)).len() as int)
            == enc_fields(avatar_fields(a)) by {
            assert(v@.subrange(0, v@.len() as int) =~= v@);
        }
    }
    let fs = match read_fields(v, 0) {
        Some(x) => x.0,
        None => {
            return None;
        },
    };
    if fs.len() != 5 {
        return None;
    }
    proof {
        assert forall|a: AvatarV| v@ == enc_avatar(a) implies fs@[0]@ == encode_utf8(a.id)
            && fs@[1]@ == encode_utf8(a.name) && fs@[2]@ == encode_utf8(a.color) && fs@[3]@
            == encode_utf8(a.accessory) && fs@[4]@ == a.owner by {
            assert(fs@[0].deep_view() =~= fs@[0]@);
            assert(fs@[1].deep_view() =~= fs@[1]@);
            assert(fs@[2].deep_view() =~= fs@[2]@);
            assert(fs@[3].deep_view() =~= fs@[3]@);
            assert(fs@[4].deep_view() =~= fs@[4]@);
        }
    }
    let id = match string_from_field(copy_bytes(&fs[0])) {
        Some(s) => s,
        None => {
            return None;
        },
    };
    let name = match string_from_field(copy_bytes(&fs[1])) {
        Some(s) => s,
        None => {
            return None;
        },
    };
    let color = match string_from_field(copy_bytes(&fs[2])) {
        Some(s) => s,
        None => {
            return None;
        },
    };
    let accessory = match string_from_field(copy_bytes(&fs[3])) {
        Some(s) => s,
        None => {
            return None;
        },
    };
    let owner = Identity { bytes: copy_bytes(&fs[4]) };
    let out = Avatar { id, name, color, accessory, owner };
    proof {
        assert forall|a: AvatarV| v@ == enc_avatar(a) implies out@ == a by {
            assert(out@ =~= a);
        }
    }
    Some(out)
}

/// Decodes a ticket record; complete for every encoded ticket.
pub fn decode_ticket(v: &Vec<u8>) -> (r: Option<Ticket>)
    ensures
        forall|t: TicketV| v@ == enc_ticket(t) ==> r is Some && r->Some_0@ == t,
{
    proof {
        assert forall|t: TicketV| v@ == enc_ticket(t) implies 0 + enc_fields(
            ticket_fields(t),
        ).len() <= v@.len() && v@.subrange(0, 0 + enc_fields(ticket_fields(t)).len() as int)
            == enc_fields(ticket_fields(t)) by {
            assert(v@.subrange(0, v@.len() as int) =~= v@);
        }
    }
    let fs = match read_fields(v, 0) {
        Some(x) => x.0,
        None => {
            return None;
        },
    };
    if fs.len() != 6 {
        return None;
    }
    proof {
        assert forall|t: TicketV| v@ == enc_ticket(t) implies fs@[0]@ == encode_utf8(t.id)
            && fs@[1]@ == encode_utf8(t.event_name) && fs@[2]@ == enc_u64(t.event_date) && fs@[3]@
            == encode_utf8(t.ticket_type) && fs@[4]@ == t.owner && fs@[5]@ == enc_bool(
            t.is_used,
        ) by {
            assert(fs@[0].deep_view() =~= fs@[0]@);
            assert(fs@[1].deep_view() =~= fs@[1]@);
            assert(fs@[2].deep_view() =~= fs@[2]@);
            assert(fs@[3].deep_view() =~= fs@[3]@);
            assert(fs@[4].deep_view() =~= fs@[4]@);
            assert(fs@[5].deep_view() =~= fs@[5]@);
        }
    }
    let id = match string_from_field(copy_bytes(&fs[0])) {
        Some(s) => s,
        None => {
            return None;
        },
    };
    let event_name = match string_from_field(copy_bytes(&fs[1])) {
        Some(s) => s,
        None => {
            return None;
        },
    };
    let event_date = match u64_from_field(&fs[2]) {
        Some(n) => n,
        None => {
            return None;
        },
    };
    let ticket_type = match string_from_field(copy_bytes(&fs[3])) {
        Some(s) => s,
        None => {
            return None;
        },
    };
    let owner = Identity { bytes: copy_bytes(&fs[4]) };
    let is_used = match bool_from_field(&fs[5]) {
        Some(b) => b,
        None => {
            return None;
        },
    };
    let out = Ticket { id, event_name, event_date, ticket_type, owner, is_used };
    proof {
        assert forall|t: TicketV| v@ == enc_ticket(t) implies out@ == t by {
            assert(out@ =~= t);
        }
    }
    Some(out)
}

/// Decodes a world record; complete for every encoded world.
pub fn decode_world(v: &Vec<u8>) -> (r: Option<VRWorld>)
    ensures
        forall|w: VRWorldV| v@ == enc_world(w) ==> r is Some && r->Some_0@ == w,
{
    proof {
        assert forall|w: VRWorldV| v@ == enc_world(w) implies 0 + enc_fields(
            world_fields(w),
        ).len() <= v@.len() && v@.subrange(0, 0 + enc_fields(world_fields(w)).len() as int)
            == enc_fields(world_fields(w)) by {
            assert(v@.subrange(0, v@.len() as int) =~= v@);
        }
    }
    let fs = match read_fields(v, 0) {
        Some(x) => x.0,
        None => {
            return None;
        },
    };
    let total = fs.len();
    if total < 6 {
        return None;
    }
    proof {
        assert forall|w: VRWorldV| v@ == enc_world(w) implies fs@[0]@ == encode_utf8(w.id)
            && fs@[1]@ == encode_utf8(w.name) && fs@[2]@ == encode_utf8(w.description) && fs@[3]@
            == w.creator && fs@[4]@ == enc_u64(w.created_at) && fs@[5]@ == enc_bool(w.is_active)
            && w.participants.len() == total - 6 && (forall|k: int|
            0 <= k < total - 6 ==> fs@[6 + k]@ == w.participants[k]) by {
            let wf = world_fields(w);
            assert(v@.subrange(0, v@.len() as int) =~= v@);
            assert(fs.deep_view() == wf);
            assert(wf.len() == 6 + w.participants.len());
            assert(wf[0] == encode_utf8(w.id));
            assert(wf[1] == encode_utf8(w.name));
            assert(wf[2] == encode_utf8(w.description));
            assert(wf[3] == w.creator);
            assert(wf[4] == enc_u64(w.created_at));
            assert(wf[5] == enc_bool(w.is_active));
            assert(fs@[0].deep_view() =~= fs@[0]@);
            assert(fs@[1].deep_view() =~= fs@[1]@);
            assert(fs@[2].deep_view() =~= fs@[2]@);
            assert(fs@[3].deep_view() =~= fs@[3]@);
            assert(fs@[4].deep_view() =~= fs@[4]@);
            assert(fs@[5].deep_view() =~= fs@[5]@);
            assert forall|k: int| 0 <= k < total - 6 implies fs@[6 + k]@ == w.participants[k] by {
                assert(fs@[6 + k].deep_view() =~= fs@[6 + k]@);
                assert(fs.deep_view()[6 + k] == wf[6 + k]);
                assert(wf[6 + k] == w.participants[k]);
            }
        }
    }
    let id = match string_from_field(copy_bytes(&fs[0])) {
        Some(s) => s,
        None => {
            return None;
        },
    };
    let name = match string_from_field(copy_bytes(&fs[1])) {
        Some(s) => s,
        None => {
            return None;
        },
    };
    let description = match string_from_field(copy_bytes(&fs[2])) {
        Some(s) => s,
        None => {
            return None;
        },
    };
    let creator = Identity { bytes: copy_bytes(&fs[3]) };
    let created_at = match u64_from_field(&fs[4]) {
        Some(n) => n,
        None => {
            return None;
        },
    };
    let is_active = match bool_from_field(&fs[5]) {
        Some(b) => b,
        None => {
            return None;
        },
    };
    let mut participants: Vec<Identity> = Vec::new();
    let mut i: usize = 6;
    while i < total
        invariant
            6 <= i <= total,
            total == fs@.len(),
            participants@.len() == i - 6,
            forall|k: int| 0 <= k < i - 6 ==> participants@[k]@ == fs@[6 + k]@,
        decreases total - i,
    {
        participants.push(Identity { bytes: copy_bytes(&fs[i]) });
        i = i + 1;
    }
    let out = VRWorld { id, name, description, creator, created_at, is_active, participants };
    proof {
        assert forall|w: VRWorldV| v@ == enc_world(w) implies out@ == w by {
            assert(out@.participants =~~= w.participants);
            assert(out@ =~= w);
        }
    }
    Some(out)
}

} // verus!
