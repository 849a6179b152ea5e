use vr_store::store::Store;
use vr_store::types::Identity;

fn ident(bytes: &[u8]) -> Identity {
    Identity { bytes: bytes.to_vec() }
}

#[test]
fn persistent_restart_keeps_records_and_counters() {
    let mut s = Store::new_persistent();
    let a = ident(&[1, 2]);
    let b = ident(&[3]);
    s.create_avatar(&a, "Ana".to_string(), "red".to_string(), "hat".to_string());
    s.mint_ticket(&a, "Expo 2025".to_string(), 123, "vip".to_string());
    s.create_vr_world(&a, "plaza".to_string(), "open".to_string(), 9);
    s.join_vr_world(&"vr_world_1".to_string(), &b);

    let mut s = s.reload();

    let av = s.get_avatar(&a).expect("avatar survives the restart");
    assert_eq!(av.id, "avatar_1");
    assert_eq!(av.name, "Ana");
    assert_eq!(av.color, "red");
    assert_eq!(av.accessory, "hat");
    assert_eq!(av.owner.bytes, vec![1, 2]);

    let tickets = s.get_tickets(&a);
    assert_eq!(tickets.len(), 1);
    assert_eq!(tickets[0].id, "ticket_1");
    assert_eq!(tickets[0].event_name, "Expo 2025");
    assert_eq!(tickets[0].event_date, 123);
    assert_eq!(tickets[0].ticket_type, "vip");
    assert!(!tickets[0].is_used);

    let worlds = s.get_all_vr_worlds();
    assert_eq!(worlds.len(), 1);
    assert_eq!(worlds[0].id, "vr_world_1");
    assert_eq!(worlds[0].created_at, 9);
    assert_eq!(worlds[0].participants.len(), 2);

    // A previously issued identifier is never reused after a restart.
    let t2 = s.mint_ticket(&b, "Fair 2026".to_string(), 456, "basic".to_string());
    assert_eq!(t2.id, "ticket_2");
    assert_eq!(s.get_total_tickets(), 2);
}

#[test]
fn persistent_restart_keeps_unicode_text() {
    let mut s = Store::new_persistent();
    let a = ident(&[5]);
    s.create_avatar(&a, "h\u{e9}llo \u{263a}".to_string(), "\u{4e16}\u{754c}".to_string(), "".to_string());
    let s = s.reload();
    let av = s.get_avatar(&a).expect("avatar survives the restart");
    assert_eq!(av.name, "h\u{e9}llo \u{263a}");
    assert_eq!(av.color, "\u{4e16}\u{754c}");
}

#[test]
fn volatile_restart_loses_everything_by_contract() {
    let mut s = Store::new_volatile();
    let a = ident(&[1]);
    s.create_avatar(&a, "Ana".to_string(), "red".to_string(), "hat".to_string());
    s.mint_ticket(&a, "Expo 2025".to_string(), 123, "vip".to_string());
    s.create_vr_world(&a, "plaza".to_string(), "open".to_string(), 9);

    let mut s = s.reload();

    assert!(s.get_avatar(&a).is_none());
    assert_eq!(s.get_total_avatars(), 0);
    assert_eq!(s.get_total_tickets(), 0);
    assert_eq!(s.get_total_vr_worlds(), 0);
    // The counters restart as well: the volatile policy keeps nothing.
    let t = s.mint_ticket(&a, "Expo 2025".to_string(), 1, "vip".to_string());
    assert_eq!(t.id, "ticket_1");
}

#[test]
fn empty_strings_survive_the_codec_and_restart() {
    let mut s = Store::new_persistent();
    let a = ident(&[0]);
    s.mint_ticket(&a, "".to_string(), 0, "".to_string());
    let s = s.reload();
    let tickets = s.get_tickets(&a);
    assert_eq!(tickets.len(), 1);
    assert_eq!(tickets[0].event_name, "");
    assert_eq!(tickets[0].ticket_type, "");
    assert_eq!(tickets[0].event_date, 0);
}

#[test]
fn participant_set_survives_restart_with_many_joiners() {
    let mut s = Store::new_persistent();
    let creator = ident(&[1]);
    s.create_vr_world(&creator, "plaza".to_string(), "".to_string(), 1);
    for n in 2..=4u8 {
        assert!(s.join_vr_world(&"vr_world_1".to_string(), &ident(&[n])));
    }
    // The creator joining again must not duplicate the membership.
    assert!(s.join_vr_world(&"vr_world_1".to_string(), &creator));
    let s = s.reload();
    let worlds = s.get_all_vr_worlds();
    assert_eq!(worlds.len(), 1);
    assert_eq!(worlds[0].participants.len(), 4);
    assert_eq!(worlds[0].participants[0].bytes, vec![1]);
}

#[test]
fn persistent_stores_own_disjoint_regions() {
    let mut s1 = Store::new_persistent();
    let mut s2 = Store::new_persistent();
    let a = ident(&[1]);
    s1.mint_ticket(&a, "Expo 2025".to_string(), 1, "vip".to_string());
    assert_eq!(s1.get_total_tickets(), 1);
    assert_eq!(s2.get_total_tickets(), 0);
    let s2 = s2.reload();
    assert_eq!(s2.get_total_tickets(), 0);
    let s1 = s1.reload();
    assert_eq!(s1.get_total_tickets(), 1);
}

#[test]
fn double_restart_is_stable() {
    let mut s = Store::new_persistent();
    let a = ident(&[8]);
    s.mint_ticket(&a, "Expo 2025".to_string(), 1, "vip".to_string());
    let s = s.reload().reload();
    assert_eq!(s.get_total_tickets(), 1);
    assert_eq!(s.get_tickets(&a).len(), 1);
}
