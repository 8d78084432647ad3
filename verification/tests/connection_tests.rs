use chat_server::connection::{ChatConnection, ReadEvent, ReadOutcome, WriteEvent};
use std::rc::Rc;

fn data(bytes: &[u8]) -> ReadEvent {
    ReadEvent::Data(bytes.to_vec())
}

#[test]
fn one_line_is_framed_with_terminator() {
    let mut c = ChatConnection::new(2);
    match c.read(data(b"hello\n")) {
        ReadOutcome::Message(m) => assert_eq!(m, "hello\n"),
        other => panic!("expected Message, got {:?}", other),
    }
}

#[test]
fn split_chunks_frame_in_order() {
    let mut c = ChatConnection::new(2);
    assert!(matches!(c.read(data(b"hel")), ReadOutcome::NeedMore));
    match c.read(data(b"lo\nwor")) {
        ReadOutcome::Message(m) => assert_eq!(m, "hello\n"),
        other => panic!("expected Message, got {:?}", other),
    }
    match c.read(data(b"ld\n")) {
        ReadOutcome::Message(m) => assert_eq!(m, "world\n"),
        other => panic!("expected Message, got {:?}", other),
    }
}

#[test]
fn buffered_lines_drain_on_would_block() {
    let mut c = ChatConnection::new(2);
    match c.read(data(b"a\nb\n")) {
        ReadOutcome::Message(m) => assert_eq!(m, "a\n"),
        other => panic!("expected Message, got {:?}", other),
    }
    match c.read(ReadEvent::WouldBlock) {
        ReadOutcome::Message(m) => assert_eq!(m, "b\n"),
        other => panic!("expected Message, got {:?}", other),
    }
    assert!(matches!(c.read(ReadEvent::WouldBlock), ReadOutcome::NeedMore));
}

#[test]
fn carriage_return_is_ordinary_content() {
    let mut c = ChatConnection::new(2);
    match c.read(data(b"hi\r\n")) {
        ReadOutcome::Message(m) => assert_eq!(m, "hi\r\n"),
        other => panic!("expected Message, got {:?}", other),
    }
}

#[test]
fn zero_byte_read_disconnects() {
    let mut c = ChatConnection::new(2);
    assert!(matches!(c.read(ReadEvent::Eof), ReadOutcome::Disconnected));
    assert!(c.is_closed());
}

#[test]
fn three_consecutive_read_faults_close() {
    let mut c = ChatConnection::new(2);
    assert!(matches!(c.read(ReadEvent::Fault), ReadOutcome::IoError));
    assert!(!c.is_closed());
    assert!(matches!(c.read(ReadEvent::Fault), ReadOutcome::IoError));
    assert!(!c.is_closed());
    assert!(matches!(c.read(ReadEvent::Fault), ReadOutcome::IoError));
    assert!(c.is_closed());
}

#[test]
fn successful_read_resets_fault_counter() {
    let mut c = ChatConnection::new(2);
    assert!(matches!(c.read(ReadEvent::Fault), ReadOutcome::IoError));
    assert!(matches!(c.read(ReadEvent::Fault), ReadOutcome::IoError));
    assert!(matches!(c.read(data(b"ok\n")), ReadOutcome::Message(_)));
    assert!(matches!(c.read(ReadEvent::Fault), ReadOutcome::IoError));
    assert!(matches!(c.read(ReadEvent::Fault), ReadOutcome::IoError));
    assert!(!c.is_closed());
}

#[test]
fn invalid_utf8_line_is_discarded_and_connection_stays_open() {
    let mut c = ChatConnection::new(2);
    assert!(matches!(
        c.read(data(&[0xFF, 0xFE, 0x0A])),
        ReadOutcome::InvalidUtf8
    ));
    assert!(!c.is_closed());
    match c.read(data(b"fine\n")) {
        ReadOutcome::Message(m) => assert_eq!(m, "fine\n"),
        other => panic!("expected Message, got {:?}", other),
    }
}

#[test]
fn overlong_unterminated_line_is_rejected() {
    let mut c = ChatConnection::new(2);
    let big = vec![b'a'; 70000];
    assert!(matches!(c.read(ReadEvent::Data(big)), ReadOutcome::IoError));
    // the buffer was dropped; a fresh line still goes through
    match c.read(data(b"ok\n")) {
        ReadOutcome::Message(m) => assert_eq!(m, "ok\n"),
        other => panic!("expected Message, got {:?}", other),
    }
}

#[test]
fn three_would_block_writes_close() {
    let mut c = ChatConnection::new(2);
    c.send_message(Rc::new(b"x\n".to_vec()));
    c.write(WriteEvent::WouldBlock);
    assert!(!c.is_closed());
    c.write(WriteEvent::WouldBlock);
    assert!(!c.is_closed());
    c.write(WriteEvent::WouldBlock);
    assert!(c.is_closed());
    // the buffer was requeued each time, not lost
    assert_eq!(*c.head_message().unwrap(), b"x\n".to_vec());
}

#[test]
fn accepted_write_resets_fault_counter() {
    let mut c = ChatConnection::new(2);
    c.send_message(Rc::new(b"a\n".to_vec()));
    c.send_message(Rc::new(b"b\n".to_vec()));
    c.write(WriteEvent::WouldBlock);
    c.write(WriteEvent::WouldBlock);
    c.write(WriteEvent::Accepted);
    c.write(WriteEvent::WouldBlock);
    c.write(WriteEvent::WouldBlock);
    assert!(!c.is_closed());
    c.write(WriteEvent::WouldBlock);
    assert!(c.is_closed());
}

#[test]
fn queue_drains_in_fifo_order_and_interest_clears() {
    let mut c = ChatConnection::new(2);
    c.send_message(Rc::new(b"first\n".to_vec()));
    c.send_message(Rc::new(b"second\n".to_vec()));
    assert!(c.interest().1);
    assert_eq!(*c.head_message().unwrap(), b"first\n".to_vec());
    c.write(WriteEvent::Accepted);
    assert!(c.interest().1);
    assert_eq!(*c.head_message().unwrap(), b"second\n".to_vec());
    c.write(WriteEvent::Accepted);
    assert!(c.head_message().is_none());
    assert!(!c.interest().1);
}

#[test]
fn write_fault_drops_buffer_and_counts() {
    let mut c = ChatConnection::new(2);
    c.send_message(Rc::new(b"a\n".to_vec()));
    c.send_message(Rc::new(b"b\n".to_vec()));
    c.write(WriteEvent::Fault);
    assert_eq!(*c.head_message().unwrap(), b"b\n".to_vec());
    assert!(!c.is_closed());
}

#[test]
fn quit_closes_without_io() {
    let mut c = ChatConnection::new(2);
    assert!(!c.is_closed());
    c.quit();
    assert!(c.is_closed());
}
