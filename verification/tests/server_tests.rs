use chat_server::clock::TimeParts;
use chat_server::connection::{ReadEvent, WriteEvent};
use chat_server::message::{build_broadcast_payload, format_timestamp};
use chat_server::server::{ChatServer, ReadDisposition};

fn data(bytes: &[u8]) -> ReadEvent {
    ReadEvent::Data(bytes.to_vec())
}

/// Pop and return the head of a connection's outbound queue.
fn take_head(server: &mut ChatServer, token: usize) -> Option<Vec<u8>> {
    let head = server.outgoing_head(token)?;
    let bytes = (*head).clone();
    server.write(token, WriteEvent::Accepted);
    Some(bytes)
}

/// Accept a connection and drop its greeting from the queue.
fn accept_quietly(server: &mut ChatServer) -> usize {
    let token = server.accept().expect("table full");
    let greeting = take_head(server, token).expect("no greeting");
    assert_eq!(greeting, b"Server: Select a username:\n".to_vec());
    token
}

/// Accept, greet, and claim a name.
fn accept_authorized(server: &mut ChatServer, name: &str) -> usize {
    let token = accept_quietly(server);
    let mut line = name.as_bytes().to_vec();
    line.push(b'\n');
    assert_eq!(
        server.read(token, ReadEvent::Data(line)),
        ReadDisposition::MessageHandled
    );
    let reply = take_head(server, token).expect("no reply to name claim");
    assert_eq!(
        reply,
        b"Server: you have been successfully authorized\n".to_vec()
    );
    token
}

#[test]
fn accept_allocates_distinct_tokens_and_greets() {
    let mut server = ChatServer::new();
    let a = server.accept().unwrap();
    let b = server.accept().unwrap();
    assert_ne!(a, b);
    assert!(server.has_connection(a) && server.has_connection(b));
    let greeting = take_head(&mut server, a).unwrap();
    assert_eq!(greeting, b"Server: Select a username:\n".to_vec());
}

#[test]
fn name_claim_and_echo_to_other_member() {
    let mut server = ChatServer::new();
    let a = accept_authorized(&mut server, "alice");
    let b = accept_authorized(&mut server, "bob");
    assert_eq!(server.get_username(a), Some("alice".to_string()));
    assert_eq!(server.get_username(b), Some("bob".to_string()));
    assert_eq!(
        server.read(a, data(b"hi\n")),
        ReadDisposition::MessageHandled
    );
    // bob receives the stamped line
    let msg = take_head(&mut server, b).expect("bob got nothing");
    assert!(msg.ends_with(b" - alice: hi\n"));
    assert_eq!(msg.len(), 19 + b" - alice: hi\n".len());
    // the stamp is four digits and two-digit fields in fixed positions
    assert_eq!(msg[4], b':');
    assert_eq!(msg[7], b':');
    assert_eq!(msg[10], b' ');
    assert_eq!(msg[13], b':');
    assert_eq!(msg[16], b':');
    // no line goes back to the sender
    assert!(server.outgoing_head(a).is_none());
}

#[test]
fn second_claim_of_name_is_reported_taken() {
    let mut server = ChatServer::new();
    let _a = accept_authorized(&mut server, "alice");
    let b = accept_quietly(&mut server);
    assert_eq!(
        server.read(b, data(b"alice\n")),
        ReadDisposition::MessageHandled
    );
    let reply = take_head(&mut server, b).unwrap();
    assert_eq!(
        reply,
        b"Server: That username is taken, please try another\n".to_vec()
    );
}

#[test]
fn whitespace_only_claim_is_ignored() {
    let mut server = ChatServer::new();
    let a = accept_quietly(&mut server);
    assert_eq!(
        server.read(a, data(b"  \n")),
        ReadDisposition::MessageHandled
    );
    assert!(server.outgoing_head(a).is_none());
}

#[test]
fn first_word_of_claim_becomes_the_name() {
    let mut server = ChatServer::new();
    let a = accept_quietly(&mut server);
    assert_eq!(
        server.read(a, data(b"alice is here\n")),
        ReadDisposition::MessageHandled
    );
    let reply = take_head(&mut server, a).unwrap();
    assert_eq!(
        reply,
        b"Server: you have been successfully authorized\n".to_vec()
    );
    let b = accept_quietly(&mut server);
    assert_eq!(
        server.read(b, data(b"alice\n")),
        ReadDisposition::MessageHandled
    );
    let reply_b = take_head(&mut server, b).unwrap();
    assert_eq!(
        reply_b,
        b"Server: That username is taken, please try another\n".to_vec()
    );
}

#[test]
fn room_isolation_keeps_messages_apart() {
    let mut server = ChatServer::new();
    let a = accept_authorized(&mut server, "alice");
    let b = accept_authorized(&mut server, "bob");
    let c = accept_authorized(&mut server, "carol");
    assert_eq!(
        server.read(a, data(b"/join red\n")),
        ReadDisposition::MessageHandled
    );
    let reply = take_head(&mut server, a).unwrap();
    assert_eq!(reply, b"Moved to room red\n".to_vec());
    assert_eq!(
        server.read(a, data(b"hello\n")),
        ReadDisposition::MessageHandled
    );
    assert!(server.outgoing_head(b).is_none());
    assert!(server.outgoing_head(c).is_none());
}

#[test]
fn rooms_listing_names_each_room_once() {
    let mut server = ChatServer::new();
    let a = accept_authorized(&mut server, "alice");
    server.read(a, data(b"/join red\n"));
    take_head(&mut server, a);
    server.read(a, data(b"/join blue\n"));
    take_head(&mut server, a);
    server.read(a, data(b"/rooms\n"));
    let listing = take_head(&mut server, a).unwrap();
    let text = String::from_utf8(listing).unwrap();
    let mut lines: Vec<&str> = text.lines().collect();
    lines.sort();
    assert_eq!(lines, vec!["blue", "default", "red"]);
    assert!(text.ends_with('\n'));
}

#[test]
fn invalid_utf8_notifies_sender_and_nothing_is_broadcast() {
    let mut server = ChatServer::new();
    let a = accept_authorized(&mut server, "alice");
    let b = accept_authorized(&mut server, "bob");
    assert_eq!(
        server.read(a, data(&[0xFF, 0xFE, 0x0A])),
        ReadDisposition::MessageHandled
    );
    let reply = take_head(&mut server, a).unwrap();
    assert_eq!(
        reply,
        b"Server: Invalid utf8, message was discarded.\n".to_vec()
    );
    assert!(server.outgoing_head(b).is_none());
}

#[test]
fn quit_frees_connection_and_name() {
    let mut server = ChatServer::new();
    let a = accept_authorized(&mut server, "alice");
    assert_eq!(server.read(a, data(b"/quit\n")), ReadDisposition::Removed);
    assert!(!server.has_connection(a));
    assert_eq!(server.get_username(a), None);
    let b = accept_quietly(&mut server);
    assert_eq!(
        server.read(b, data(b"alice\n")),
        ReadDisposition::MessageHandled
    );
    let reply = take_head(&mut server, b).unwrap();
    assert_eq!(
        reply,
        b"Server: you have been successfully authorized\n".to_vec()
    );
}

#[test]
fn unrecognized_command_gets_a_notice() {
    let mut server = ChatServer::new();
    let a = accept_authorized(&mut server, "alice");
    server.read(a, data(b"/frobnicate\n"));
    let reply = take_head(&mut server, a).unwrap();
    assert_eq!(reply, b"Not a valid command\n".to_vec());
}

#[test]
fn join_from_unauthorized_connection_is_not_a_valid_command() {
    let mut server = ChatServer::new();
    let a = accept_quietly(&mut server);
    assert_eq!(
        server.read(a, data(b"/join red\n")),
        ReadDisposition::MessageHandled
    );
    let reply = take_head(&mut server, a).unwrap();
    assert_eq!(reply, b"Not a valid command\n".to_vec());
}

#[test]
fn disconnect_removes_connection_and_user() {
    let mut server = ChatServer::new();
    let a = accept_authorized(&mut server, "alice");
    let b = accept_authorized(&mut server, "bob");
    assert_eq!(server.read(a, ReadEvent::Eof), ReadDisposition::Removed);
    assert!(!server.has_connection(a));
    // alice's name is free again
    let c = accept_quietly(&mut server);
    server.read(c, data(b"alice\n"));
    let reply = take_head(&mut server, c).unwrap();
    assert_eq!(
        reply,
        b"Server: you have been successfully authorized\n".to_vec()
    );
    // bob no longer hears from the old connection's room slot
    assert!(server.outgoing_head(b).is_none());
}

#[test]
fn three_blocked_writes_remove_the_connection() {
    let mut server = ChatServer::new();
    let a = accept_quietly(&mut server);
    server.read(a, data(b"alice\n"));
    assert!(server.outgoing_head(a).is_some());
    assert!(!server.write(a, WriteEvent::WouldBlock));
    assert!(!server.write(a, WriteEvent::WouldBlock));
    assert!(server.write(a, WriteEvent::WouldBlock));
    assert!(!server.has_connection(a));
}

#[test]
fn writable_with_empty_queue_clears_interest() {
    let mut server = ChatServer::new();
    let a = accept_quietly(&mut server);
    assert!(server.outgoing_head(a).is_none());
    assert!(!server.write_idle(a));
    let (readable, writable) = server.connection_interest(a);
    assert!(readable);
    assert!(!writable);
}

#[test]
fn broadcast_reaches_every_other_member_in_enqueue_order() {
    let mut server = ChatServer::new();
    let a = accept_authorized(&mut server, "alice");
    let b = accept_authorized(&mut server, "bob");
    let c = accept_authorized(&mut server, "carol");
    server.read(a, data(b"one\n"));
    server.read(b, data(b"two\n"));
    let first = take_head(&mut server, c).unwrap();
    let second = take_head(&mut server, c).unwrap();
    assert!(first.ends_with(b" - alice: one\n"));
    assert!(second.ends_with(b" - bob: two\n"));
    assert!(server.outgoing_head(c).is_none());
}

#[test]
fn timestamp_renders_zero_padded_fields() {
    let ts = TimeParts {
        year: 2024,
        month: 1,
        day: 2,
        hour: 3,
        minute: 4,
        second: 5,
    };
    assert_eq!(format_timestamp(&ts), b"2024:01:02 03:04:05".to_vec());
}

#[test]
fn broadcast_payload_has_exact_shape() {
    let ts = TimeParts {
        year: 2024,
        month: 1,
        day: 2,
        hour: 3,
        minute: 4,
        second: 5,
    };
    let payload =
        build_broadcast_payload(&ts, &"alice".to_string(), &"hi\n".to_string());
    assert_eq!(payload, b"2024:01:02 03:04:05 - alice: hi\n".to_vec());
}

#[test]
fn clock_reading_is_well_formed() {
    let ts = TimeParts::now();
    assert!(ts.year <= 9999);
    assert!((1..=12).contains(&ts.month));
    assert!((1..=31).contains(&ts.day));
    assert!(ts.hour < 24 && ts.minute < 60 && ts.second < 60);
    assert_eq!(format_timestamp(&ts).len(), 19);
}

#[test]
fn table_cap_refuses_further_accepts() {
    let mut server = ChatServer::new();
    let mut last = 0;
    for _ in 0..1024 {
        last = server.accept().expect("accept under the cap");
    }
    assert!(server.accept().is_none());
    // freeing one slot makes room again, and the token is recycled
    assert_eq!(server.read(last, ReadEvent::Eof), ReadDisposition::Removed);
    assert_eq!(server.accept(), Some(last));
}
