use chat_server::command::{is_command, ChatCommand};

#[test]
fn recognizes_rooms_command() {
    let cmd = ChatCommand::new(&"/rooms\n".to_string());
    assert!(matches!(cmd, Some(ChatCommand::ListRooms)));
}

#[test]
fn recognizes_quit_command() {
    let cmd = ChatCommand::new(&"/quit\n".to_string());
    assert!(matches!(cmd, Some(ChatCommand::Quit)));
}

#[test]
fn recognizes_join_command_with_room() {
    let cmd = ChatCommand::new(&"/join red\n".to_string());
    match cmd {
        Some(ChatCommand::ChangeRoom(room)) => assert_eq!(room, "red"),
        other => panic!("expected ChangeRoom, got {:?}", other),
    }
}

#[test]
fn join_takes_first_argument_word() {
    let cmd = ChatCommand::new(&"/join   blue   extra\n".to_string());
    match cmd {
        Some(ChatCommand::ChangeRoom(room)) => assert_eq!(room, "blue"),
        other => panic!("expected ChangeRoom, got {:?}", other),
    }
}

#[test]
fn join_without_argument_is_unrecognized() {
    assert!(ChatCommand::new(&"/join\n".to_string()).is_none());
    assert!(ChatCommand::new(&"/join \n".to_string()).is_none());
}

#[test]
fn unknown_commands_are_unrecognized() {
    assert!(ChatCommand::new(&"/frobnicate\n".to_string()).is_none());
    assert!(ChatCommand::new(&"/ROOMS\n".to_string()).is_none());
    assert!(ChatCommand::new(&"/quitting\n".to_string()).is_none());
    assert!(ChatCommand::new(&"\n".to_string()).is_none());
    assert!(ChatCommand::new(&"".to_string()).is_none());
}

#[test]
fn command_word_parses_after_leading_spaces() {
    let cmd = ChatCommand::new(&"  /rooms\n".to_string());
    assert!(matches!(cmd, Some(ChatCommand::ListRooms)));
}

#[test]
fn is_command_looks_at_first_character() {
    assert!(is_command(&"/rooms\n".to_string()));
    assert!(is_command(&"/anything".to_string()));
    assert!(!is_command(&"hello\n".to_string()));
    assert!(!is_command(&" /rooms\n".to_string()));
    assert!(!is_command(&"".to_string()));
}
