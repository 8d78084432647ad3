use chat_server::app::{ChatApp, RegisterError};

#[test]
fn register_then_lookup_username() {
    let mut app = ChatApp::new();
    assert!(app.register_user(2, "alice".to_string()).is_ok());
    assert_eq!(app.get_username(2), Some("alice".to_string()));
    assert_eq!(app.get_username(3), None);
}

#[test]
fn second_claim_of_name_is_taken() {
    let mut app = ChatApp::new();
    assert!(app.register_user(2, "alice".to_string()).is_ok());
    let r = app.register_user(3, "alice".to_string());
    assert_eq!(r, Err(RegisterError::NameTaken));
    assert_eq!(app.get_username(3), None);
}

#[test]
fn token_cannot_register_twice() {
    let mut app = ChatApp::new();
    assert!(app.register_user(2, "alice".to_string()).is_ok());
    let r = app.register_user(2, "bob".to_string());
    assert_eq!(r, Err(RegisterError::TokenAlreadyRegistered));
}

#[test]
fn removed_name_can_be_claimed_again() {
    let mut app = ChatApp::new();
    assert!(app.register_user(2, "alice".to_string()).is_ok());
    app.remove_user(2);
    assert_eq!(app.get_username(2), None);
    assert!(app.register_user(7, "alice".to_string()).is_ok());
    assert_eq!(app.get_username(7), Some("alice".to_string()));
}

#[test]
fn remove_unknown_token_is_noop() {
    let mut app = ChatApp::new();
    assert!(app.register_user(2, "alice".to_string()).is_ok());
    app.remove_user(99);
    assert_eq!(app.get_username(2), Some("alice".to_string()));
}

#[test]
fn room_list_starts_with_default_and_grows() {
    let mut app = ChatApp::new();
    assert_eq!(app.get_room_list(), vec!["default".to_string()]);
    assert!(app.register_user(2, "alice".to_string()).is_ok());
    app.move_rooms(2, &"red".to_string());
    app.move_rooms(2, &"blue".to_string());
    let mut rooms = app.get_room_list();
    rooms.sort();
    assert_eq!(
        rooms,
        vec!["blue".to_string(), "default".to_string(), "red".to_string()]
    );
}

#[test]
fn rooms_are_not_deleted_when_emptied() {
    let mut app = ChatApp::new();
    assert!(app.register_user(2, "alice".to_string()).is_ok());
    app.move_rooms(2, &"red".to_string());
    app.move_rooms(2, &"default".to_string());
    let mut rooms = app.get_room_list();
    rooms.sort();
    assert_eq!(rooms, vec!["default".to_string(), "red".to_string()]);
}

#[test]
fn recipients_are_room_members_except_sender() {
    let mut app = ChatApp::new();
    assert!(app.register_user(2, "alice".to_string()).is_ok());
    assert!(app.register_user(3, "bob".to_string()).is_ok());
    assert!(app.register_user(4, "carol".to_string()).is_ok());
    let mut r = app.get_message_recipients(2);
    r.sort();
    assert_eq!(r, vec![3, 4]);
}

#[test]
fn moving_rooms_isolates_recipients() {
    let mut app = ChatApp::new();
    assert!(app.register_user(2, "alice".to_string()).is_ok());
    assert!(app.register_user(3, "bob".to_string()).is_ok());
    app.move_rooms(2, &"red".to_string());
    assert_eq!(app.get_message_recipients(2), Vec::<usize>::new());
    assert_eq!(app.get_message_recipients(3), Vec::<usize>::new());
}

#[test]
fn mover_is_seen_by_room_members_but_not_itself() {
    let mut app = ChatApp::new();
    assert!(app.register_user(2, "alice".to_string()).is_ok());
    assert!(app.register_user(3, "bob".to_string()).is_ok());
    app.move_rooms(3, &"red".to_string());
    app.move_rooms(2, &"red".to_string());
    assert_eq!(app.get_message_recipients(3), vec![2]);
    assert!(!app.get_message_recipients(2).contains(&2));
}

#[test]
fn moving_to_current_room_changes_nothing_observable() {
    let mut app = ChatApp::new();
    assert!(app.register_user(2, "alice".to_string()).is_ok());
    assert!(app.register_user(3, "bob".to_string()).is_ok());
    app.move_rooms(2, &"red".to_string());
    let rooms_before = {
        let mut r = app.get_room_list();
        r.sort();
        r
    };
    let recipients_before = app.get_message_recipients(3);
    app.move_rooms(2, &"red".to_string());
    let rooms_after = {
        let mut r = app.get_room_list();
        r.sort();
        r
    };
    assert_eq!(rooms_before, rooms_after);
    assert_eq!(recipients_before, app.get_message_recipients(3));
    assert_eq!(app.get_username(2), Some("alice".to_string()));
    assert_eq!(app.get_message_recipients(2), Vec::<usize>::new());
}
