use vr_store::store::{whoami, Store};
use vr_store::types::Identity;

fn ident(bytes: &[u8]) -> Identity {
    Identity { bytes: bytes.to_vec() }
}

#[test]
fn whoami_echoes_identity() {
    let me = whoami(ident(&[9, 9, 9]));
    assert_eq!(me.bytes, vec![9, 9, 9]);
}

#[test]
fn create_avatar_mints_first_id() {
    let mut s = Store::new_volatile();
    let a = ident(&[1]);
    let av = s.create_avatar(&a, "Ana".to_string(), "red".to_string(), "hat".to_string());
    assert_eq!(av.id, "avatar_1");
    assert_eq!(av.name, "Ana");
    assert_eq!(av.color, "red");
    assert_eq!(av.accessory, "hat");
    assert_eq!(av.owner.bytes, vec![1]);
    assert_eq!(s.get_total_avatars(), 1);
}

#[test]
fn create_avatar_is_idempotent() {
    let mut s = Store::new_volatile();
    let a = ident(&[1]);
    let first = s.create_avatar(&a, "Ana".to_string(), "red".to_string(), "hat".to_string());
    let second = s.create_avatar(&a, "Bob".to_string(), "blue".to_string(), "cape".to_string());
    assert_eq!(second.id, first.id);
    assert_eq!(second.name, "Ana");
    assert_eq!(second.color, "red");
    assert_eq!(second.accessory, "hat");
    assert_eq!(s.get_total_avatars(), 1);
    let stored = s.get_avatar(&a).expect("avatar stored");
    assert_eq!(stored.name, "Ana");
}

#[test]
fn get_avatar_absent_is_none() {
    let s = Store::new_volatile();
    assert!(s.get_avatar(&ident(&[7])).is_none());
}

#[test]
fn avatar_text_survives_unicode() {
    let mut s = Store::new_volatile();
    let a = ident(&[1]);
    s.create_avatar(&a, "h\u{e9}llo \u{263a}".to_string(), "ro\u{df}a".to_string(), "".to_string());
    let stored = s.get_avatar(&a).expect("avatar stored");
    assert_eq!(stored.name, "h\u{e9}llo \u{263a}");
    assert_eq!(stored.color, "ro\u{df}a");
    assert_eq!(stored.accessory, "");
}

#[test]
fn mint_ticket_fields_and_ids() {
    let mut s = Store::new_volatile();
    let a = ident(&[1]);
    let t1 = s.mint_ticket(&a, "Expo 2025".to_string(), 1_700_000, "vip".to_string());
    let t2 = s.mint_ticket(&a, "Fair 2026".to_string(), 1_800_000, "basic".to_string());
    assert_eq!(t1.id, "ticket_1");
    assert_eq!(t2.id, "ticket_2");
    assert_eq!(t1.event_name, "Expo 2025");
    assert_eq!(t1.event_date, 1_700_000);
    assert_eq!(t1.ticket_type, "vip");
    assert!(!t1.is_used);
    assert_eq!(t1.owner.bytes, vec![1]);
    assert_eq!(s.get_total_tickets(), 2);
}

#[test]
fn tickets_are_owner_scoped() {
    let mut s = Store::new_volatile();
    let a = ident(&[1]);
    let b = ident(&[2]);
    s.mint_ticket(&a, "Expo 2025".to_string(), 10, "vip".to_string());
    s.mint_ticket(&a, "Fair 2026".to_string(), 20, "basic".to_string());
    s.mint_ticket(&b, "Expo 2025".to_string(), 10, "basic".to_string());
    let owned = s.get_tickets(&a);
    assert_eq!(owned.len(), 2);
    let mut ids: Vec<String> = owned.iter().map(|t| t.id.clone()).collect();
    ids.sort();
    assert_eq!(ids, vec!["ticket_1".to_string(), "ticket_2".to_string()]);
    for t in &owned {
        assert_eq!(t.owner.bytes, vec![1]);
    }
    assert_eq!(s.get_tickets(&b).len(), 1);
    assert_eq!(s.get_total_tickets(), 3);
    assert_eq!(s.get_tickets(&ident(&[3])).len(), 0);
}

#[test]
fn create_world_starts_with_creator() {
    let mut s = Store::new_volatile();
    let a = ident(&[1]);
    let w = s.create_vr_world(&a, "plaza".to_string(), "open square".to_string(), 42);
    assert_eq!(w.id, "vr_world_1");
    assert_eq!(w.name, "plaza");
    assert_eq!(w.description, "open square");
    assert_eq!(w.created_at, 42);
    assert!(w.is_active);
    assert_eq!(w.participants.len(), 1);
    assert_eq!(w.participants[0].bytes, vec![1]);
    assert_eq!(s.get_total_vr_worlds(), 1);
}

#[test]
fn join_twice_is_idempotent() {
    let mut s = Store::new_volatile();
    let a = ident(&[1]);
    let b = ident(&[2]);
    let w = s.create_vr_world(&a, "plaza".to_string(), "open".to_string(), 1);
    assert_eq!(w.participants.len(), 1);
    assert!(s.join_vr_world(&"vr_world_1".to_string(), &b));
    assert!(s.join_vr_world(&"vr_world_1".to_string(), &b));
    let worlds = s.get_all_vr_worlds();
    assert_eq!(worlds.len(), 1);
    assert_eq!(worlds[0].participants.len(), 2);
    assert_eq!(worlds[0].participants[0].bytes, vec![1]);
    assert_eq!(worlds[0].participants[1].bytes, vec![2]);
}

#[test]
fn join_unknown_world_changes_nothing() {
    let mut s = Store::new_volatile();
    let a = ident(&[1]);
    assert!(!s.join_vr_world(&"vr_world_5".to_string(), &a));
    assert_eq!(s.get_total_vr_worlds(), 0);
    let w = s.create_vr_world(&a, "plaza".to_string(), "open".to_string(), 1);
    assert_eq!(w.id, "vr_world_1");
}

#[test]
fn world_lists_are_filtered() {
    let mut s = Store::new_volatile();
    let a = ident(&[1]);
    let b = ident(&[2]);
    s.create_vr_world(&a, "one".to_string(), "".to_string(), 1);
    s.create_vr_world(&b, "two".to_string(), "".to_string(), 2);
    s.create_vr_world(&a, "three".to_string(), "".to_string(), 3);
    let mine = s.get_user_vr_worlds(&a);
    assert_eq!(mine.len(), 2);
    for w in &mine {
        assert_eq!(w.creator.bytes, vec![1]);
    }
    assert_eq!(s.get_all_vr_worlds().len(), 3);
    assert_eq!(s.get_user_vr_worlds(&ident(&[9])).len(), 0);
}

#[test]
fn generated_ids_count_up_per_kind() {
    let mut s = Store::new_volatile();
    assert_eq!(s.generate_ticket_id(), "ticket_1");
    assert_eq!(s.generate_ticket_id(), "ticket_2");
    assert_eq!(s.generate_avatar_id(), "avatar_1");
    assert_eq!(s.generate_vr_world_id(), "vr_world_1");
    assert_eq!(s.generate_ticket_id(), "ticket_3");
}

#[test]
fn user_view_composes_everything() {
    let mut s = Store::new_volatile();
    let a = ident(&[1]);
    let b = ident(&[2]);
    s.create_avatar(&a, "Ana".to_string(), "red".to_string(), "hat".to_string());
    s.mint_ticket(&a, "Expo 2025".to_string(), 10, "vip".to_string());
    s.mint_ticket(&b, "Expo 2025".to_string(), 10, "vip".to_string());
    s.create_vr_world(&a, "plaza".to_string(), "open".to_string(), 5);
    let u = s.get_user(&a, 77);
    assert_eq!(u.id.bytes, vec![1]);
    assert_eq!(u.created_at, 77);
    assert_eq!(u.avatar.expect("has avatar").name, "Ana");
    assert_eq!(u.tickets.len(), 1);
    assert_eq!(u.vr_worlds.len(), 1);
    let empty = s.get_user(&ident(&[9]), 78);
    assert!(empty.avatar.is_none());
    assert_eq!(empty.tickets.len(), 0);
    assert_eq!(empty.vr_worlds.len(), 0);
}
