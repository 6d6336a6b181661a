use collab_server::document::Document;
use collab_server::naming::{format_participant_name, format_room_name};
use collab_server::registry::Registry;
use collab_server::room::Room;
use collab_server::session::{Inbound, Outcome, Session};

fn deliver(out: Outcome) -> (String, Vec<u64>) {
    match out {
        Outcome::Deliver { payload, to } => (payload, to),
        _ => panic!("expected a delivery"),
    }
}

fn joined_id(s: &Session) -> String {
    match s {
        Session::Joined { participant_id } => participant_id.clone(),
        _ => panic!("expected a joined session"),
    }
}

#[test]
fn create_join_broadcast_close_scenario() {
    let mut reg: Registry<Room> = Registry::new();
    let id = reg.next_room_id();
    let created = reg.create_room(Room::new(id));
    assert_eq!(created, "room_1");

    let mut room = Room::new(created.clone());
    let mut s1 = Session::connect(Some(&mut room), 10);
    let mut s2 = Session::connect(Some(&mut room), 20);
    assert_eq!(joined_id(&s1), "participant_1");
    assert_eq!(joined_id(&s2), "participant_2");

    let (p, to) = deliver(s1.on_frame(&mut room, Inbound::Text("hello".to_string())));
    assert_eq!(p, "hello");
    assert_eq!(to, vec![10, 20]);
    assert_eq!(room.content(), "hello");

    let (p, to) = deliver(s2.on_frame(&mut room, Inbound::Text("world".to_string())));
    assert_eq!(p, "world");
    assert_eq!(to, vec![10, 20]);
    assert_eq!(room.content(), "world");

    assert!(matches!(s1.on_frame(&mut room, Inbound::Close), Outcome::Ended));
    assert!(s1.is_closed());
    assert_eq!(room.participant_ids(), vec!["participant_2".to_string()]);

    let (_, to) = deliver(s2.on_frame(&mut room, Inbound::Text("again".to_string())));
    assert_eq!(to, vec![20]);
}

#[test]
fn join_unknown_room_is_refused() {
    let mut reg: Registry<Room> = Registry::new();
    assert!(reg.get_room(&"room_99".to_string()).is_none());
    let s = Session::connect(None, 1);
    assert!(s.is_closed());
    assert_eq!(reg.room_count(), 0);

    let id = reg.next_room_id();
    reg.create_room(Room::new(id));
    assert!(reg.get_room(&"room_99".to_string()).is_none());
    assert_eq!(reg.room_count(), 1);
}

#[test]
fn room_ids_count_up_and_resolve() {
    let mut reg: Registry<u32> = Registry::new();
    assert_eq!(reg.next_room_id(), "room_1");
    assert_eq!(reg.create_room(7), "room_1");
    assert_eq!(reg.create_room(8), "room_2");
    assert_eq!(reg.next_room_id(), "room_3");
    let ids: Vec<String> = (0..9).map(|k| reg.create_room(100 + k)).collect();
    assert_eq!(ids[8], "room_11");
    assert_eq!(reg.get_room(&"room_1".to_string()), Some(&7));
    assert_eq!(reg.get_room(&"room_2".to_string()), Some(&8));
    assert_eq!(reg.get_room(&"room_11".to_string()), Some(&108));
    assert_eq!(reg.get_room(&"room_12".to_string()), None);
    assert_eq!(reg.get_room(&"room_0".to_string()), None);
    assert_eq!(reg.get_room(&"room_01".to_string()), None);
    assert_eq!(reg.get_room(&"".to_string()), None);
    assert_eq!(reg.room_count(), 11);
}

#[test]
fn join_ids_are_unique_without_leaves() {
    let mut room = Room::new("room_1".to_string());
    let ids: Vec<String> = (0..12).map(|c| room.join(c)).collect();
    for i in 0..ids.len() {
        assert_eq!(ids[i], format!("participant_{}", i + 1));
        for j in 0..ids.len() {
            if i != j {
                assert_ne!(ids[i], ids[j]);
            }
        }
    }
    assert_eq!(room.participant_count(), 12);
}

#[test]
fn join_after_leave_gets_fresh_id() {
    let mut room = Room::new("room_1".to_string());
    room.join(1);
    room.join(2);
    room.leave(&"participant_1".to_string());
    assert_eq!(room.join(3), "participant_3");
    assert_eq!(
        room.participant_ids(),
        vec!["participant_2".to_string(), "participant_3".to_string()]
    );
    assert_eq!(room.join_count(), 3);
    room.leave(&"participant_2".to_string());
    assert_eq!(room.participant_ids(), vec!["participant_3".to_string()]);
    assert_eq!(room.apply_and_broadcast("only".to_string()), vec![3]);
}

#[test]
fn connection_membership_is_reported() {
    let mut room = Room::new("room_1".to_string());
    assert!(!room.has_connection(9));
    room.join(9);
    room.join(4);
    assert!(room.has_connection(9));
    assert!(room.has_connection(4));
    assert!(!room.has_connection(5));
    room.leave(&"participant_1".to_string());
    assert!(!room.has_connection(9));
    assert_eq!(room.join_count(), 2);
}

#[test]
fn broadcast_reaches_every_member_including_sender() {
    let mut room = Room::new("r".to_string());
    room.join(5);
    room.join(6);
    room.join(7);
    let to = room.apply_and_broadcast("x".to_string());
    assert_eq!(to, vec![5, 6, 7]);
    assert_eq!(room.content(), "x");
    assert_eq!(room.participant_count(), 3);
}

#[test]
fn broadcast_in_empty_room_still_updates_document() {
    let mut room = Room::new("r".to_string());
    let to = room.apply_and_broadcast("alone".to_string());
    assert!(to.is_empty());
    assert_eq!(room.content(), "alone");
}

#[test]
fn last_writer_wins_in_serialization_order() {
    let mut room = Room::new("r".to_string());
    room.join(1);
    room.join(2);
    let a = room.apply_and_broadcast("u1".to_string());
    let b = room.apply_and_broadcast("u2".to_string());
    assert_eq!(room.content(), "u2");
    assert_eq!(a, b);
    room.apply_and_broadcast("u1".to_string());
    assert_eq!(room.content(), "u1");
}

#[test]
fn leave_is_idempotent_and_ignores_unknown_ids() {
    let mut room = Room::new("r".to_string());
    room.join(1);
    room.join(2);
    room.join(3);
    room.leave(&"participant_2".to_string());
    assert_eq!(
        room.participant_ids(),
        vec!["participant_1".to_string(), "participant_3".to_string()]
    );
    room.leave(&"participant_2".to_string());
    room.leave(&"nobody".to_string());
    assert_eq!(room.participant_count(), 2);
    assert_eq!(room.apply_and_broadcast("z".to_string()), vec![1, 3]);
}

#[test]
fn other_frames_are_ignored() {
    let mut room = Room::new("r".to_string());
    let mut s = Session::connect(Some(&mut room), 4);
    room.apply_and_broadcast("keep".to_string());
    assert!(matches!(s.on_frame(&mut room, Inbound::Other), Outcome::Ignored));
    assert_eq!(room.content(), "keep");
    assert_eq!(room.participant_count(), 1);
    assert!(!s.is_closed());
}

#[test]
fn closed_or_connecting_session_only_ends() {
    let mut room = Room::new("r".to_string());
    let mut s = Session::connect(Some(&mut room), 4);
    assert!(matches!(s.on_frame(&mut room, Inbound::Close), Outcome::Ended));
    assert!(s.is_closed());
    assert!(matches!(
        s.on_frame(&mut room, Inbound::Text("late".to_string())),
        Outcome::Ended
    ));
    assert_eq!(room.content(), "");
    let mut fresh = Session::new();
    assert!(matches!(fresh.on_frame(&mut room, Inbound::Close), Outcome::Ended));
    assert!(!fresh.is_closed());
}

#[test]
fn document_last_write_wins() {
    let mut d = Document::new();
    assert_eq!(d.get_content(), "");
    d.set_content("a".to_string());
    d.set_content("b".to_string());
    assert_eq!(d.get_content(), "b");
}

#[test]
fn room_keeps_its_id() {
    let mut room = Room::new("room_4".to_string());
    room.join(1);
    room.apply_and_broadcast("p".to_string());
    assert_eq!(room.id(), "room_4");
}

#[test]
fn ids_are_written_in_decimal() {
    assert_eq!(format_room_name(0), "room_0");
    assert_eq!(format_room_name(7), "room_7");
    assert_eq!(format_room_name(10), "room_10");
    assert_eq!(format_room_name(90210), "room_90210");
    assert_eq!(format_room_name(u64::MAX), format!("room_{}", u64::MAX));
    assert_eq!(format_participant_name(1), "participant_1");
    assert_eq!(format_participant_name(100), "participant_100");
    assert_eq!(
        format_participant_name(u64::MAX),
        "participant_18446744073709551615"
    );
}
