//! One connection to the chat server.
//!
//! The socket itself lives outside the library. The surrounding loop
//! performs one non-blocking read or write and reports what the kernel
//! said as a plain event; everything the connection does with that event —
//! buffering, line framing, UTF-8 checking, failure counting, the
//! lifecycle state and the outbound queue — is verified here.

use std::collections::VecDeque;
use std::rc::Rc;
use vstd::prelude::*;
use vstd::utf8::{decode_utf8, valid_utf8};

use crate::framing::{after_first_line, first_line, has_line, line_len};

verus! {

/// A connection never holds more than this many bytes of an unterminated
/// line; a read that would grow the buffer further is rejected.
pub const MAX_LINE_BYTES: usize = 65536;

/// Lifecycle of a connection. A closed connection is removed from the
/// server's table and never reopened.
#[derive(Clone, Copy, Debug, PartialEq, Eq, Structural)]
pub enum ChatConnectionState {
    Open,
    Closed,
}

/// What one non-blocking read of the socket produced.
#[derive(Debug)]
pub enum ReadEvent {
    /// The kernel handed over these bytes.
    Data(Vec<u8>),
    /// The socket was not actually ready; nothing was read.
    WouldBlock,
    /// A read of zero bytes: the peer half-closed.
    Eof,
    /// Any other I/O error.
    Fault,
}

/// The mathematical value of a read event.
pub enum ReadEventModel {
    Data(Seq<u8>),
    WouldBlock,
    Eof,
    Fault,
}

impl View for ReadEvent {
    type V = ReadEventModel;

    open spec fn view(&self) -> ReadEventModel {
        match self {
            ReadEvent::Data(d) => ReadEventModel::Data(d@),
            ReadEvent::WouldBlock => ReadEventModel::WouldBlock,
            ReadEvent::Eof => ReadEventModel::Eof,
            ReadEvent::Fault => ReadEventModel::Fault,
        }
    }
}

/// What handling one read event came to.
#[derive(Debug)]
pub enum ReadOutcome {
    /// A complete line, terminator included, in valid UTF-8.
    Message(String),
    /// No complete line yet; keep listening.
    NeedMore,
    /// The peer closed; the connection is now `Closed`.
    Disconnected,
    /// A complete line was framed but was not UTF-8; it was discarded.
    InvalidUtf8,
    /// An I/O failure, or an over-long line; counted toward closing.
    IoError,
}

/// The mathematical value of a read outcome.
pub enum ReadOutcomeModel {
    Message(Seq<char>),
    NeedMore,
    Disconnected,
    InvalidUtf8,
    IoError,
}

impl View for ReadOutcome {
    type V = ReadOutcomeModel;

    open spec fn view(&self) -> ReadOutcomeModel {
        match self {
            ReadOutcome::Message(s) => ReadOutcomeModel::Message(s@),
            ReadOutcome::NeedMore => ReadOutcomeModel::NeedMore,
            ReadOutcome::Disconnected => ReadOutcomeModel::Disconnected,
            ReadOutcome::InvalidUtf8 => ReadOutcomeModel::InvalidUtf8,
            ReadOutcome::IoError => ReadOutcomeModel::IoError,
        }
    }
}

/// What one non-blocking write of the queue's head buffer produced.
#[derive(Clone, Copy, Debug)]
pub enum WriteEvent {
    /// The kernel accepted the buffer.
    Accepted,
    /// The kernel accepted nothing; the buffer stays queued at the head.
    WouldBlock,
    /// An I/O error; the buffer is dropped.
    Fault,
}

/// The mathematical value of a connection.
#[verifier::ext_equal]
pub struct ConnModel {
    pub token: usize,
    pub interest_readable: bool,
    pub interest_writable: bool,
    pub read_buf: Seq<u8>,
    pub send_queue: Seq<Seq<u8>>,
    pub state: ChatConnectionState,
    pub failed_reads: u32,
    pub failed_writes: u32,
}

impl ConnModel {
    /// The read buffer never outgrows the line cap.
    pub open spec fn inv(self) -> bool {
        self.read_buf.len() <= MAX_LINE_BYTES
    }
}

/// A failure counter steps toward the closing threshold and then stays.
pub open spec fn bump_failures(n: u32) -> u32 {
    if n < 3 {
        (n + 1) as u32
    } else {
        n
    }
}

/// Closed once the counter reaches three consecutive failures.
pub open spec fn state_after_failure(n: u32, st: ChatConnectionState) -> ChatConnectionState {
    if n >= 3 {
        ChatConnectionState::Closed
    } else {
        st
    }
}

/// Take the leading complete line out of the buffer, if there is one, and
/// judge its UTF-8.
pub open spec fn extract_step(c: ConnModel) -> (ConnModel, ReadOutcomeModel) {
    if has_line(c.read_buf) {
        let line = first_line(c.read_buf);
        let c2 = ConnModel { read_buf: after_first_line(c.read_buf), ..c };
        if valid_utf8(line) {
            (c2, ReadOutcomeModel::Message(decode_utf8(line)))
        } else {
            (c2, ReadOutcomeModel::InvalidUtf8)
        }
    } else {
        (c, ReadOutcomeModel::NeedMore)
    }
}

/// The whole effect of one read event on a connection.
pub open spec fn read_step(c: ConnModel, ev: ReadEventModel) -> (ConnModel, ReadOutcomeModel) {
    match ev {
        ReadEventModel::Eof => (
            ConnModel { state: ChatConnectionState::Closed, ..c },
            ReadOutcomeModel::Disconnected,
        ),
        ReadEventModel::WouldBlock => extract_step(ConnModel { failed_reads: 0, ..c }),
        ReadEventModel::Fault => {
            let n = bump_failures(c.failed_reads);
            (
                ConnModel { failed_reads: n, state: state_after_failure(n, c.state), ..c },
                ReadOutcomeModel::IoError,
            )
        },
        ReadEventModel::Data(d) => {
            if c.read_buf.len() + d.len() > MAX_LINE_BYTES {
                let n = bump_failures(c.failed_reads);
                (
                    ConnModel {
                        read_buf: Seq::empty(),
                        failed_reads: n,
                        state: state_after_failure(n, c.state),
                        ..c
                    },
                    ReadOutcomeModel::IoError,
                )
            } else {
                extract_step(ConnModel { read_buf: c.read_buf + d, failed_reads: 0, ..c })
            }
        },
    }
}

/// The whole effect of one write event on a connection with a queued
/// buffer at its head.
pub open spec fn write_step(c: ConnModel, ev: WriteEvent) -> ConnModel
    recommends
        c.send_queue.len() > 0,
{
    match ev {
        WriteEvent::Accepted => {
            let q = c.send_queue.drop_first();
            ConnModel { send_queue: q, failed_writes: 0, interest_writable: q.len() > 0, ..c }
        },
        WriteEvent::WouldBlock => {
            let n = bump_failures(c.failed_writes);
            ConnModel { failed_writes: n, state: state_after_failure(n, c.state), ..c }
        },
        WriteEvent::Fault => {
            let n = bump_failures(c.failed_writes);
            let q = c.send_queue.drop_first();
            ConnModel {
                send_queue: q,
                failed_writes: n,
                state: state_after_failure(n, c.state),
                interest_writable: q.len() > 0,
                ..c
            }
        },
    }
}

/// After three consecutive would-block writes for the same connection, the
/// connection is closed.
pub proof fn lemma_three_blocked_writes_close(c: ConnModel)
    requires
        c.failed_writes == 0,
        c.send_queue.len() > 0,
    ensures
        write_step(
            write_step(write_step(c, WriteEvent::WouldBlock), WriteEvent::WouldBlock),
            WriteEvent::WouldBlock,
        ).state == ChatConnectionState::Closed,
{
}

/// One data chunk carrying two complete lines is framed as those two
/// lines, in order: the first comes out at once, the second on the next
/// readable event, and nothing stays behind.
pub proof fn lemma_two_lines_frame_in_order(c: ConnModel, a: Seq<u8>, b: Seq<u8>)
    requires
        c.read_buf.len() == 0,
        crate::framing::is_complete_line(a),
        crate::framing::is_complete_line(b),
        valid_utf8(a),
        valid_utf8(b),
        a.len() + b.len() <= MAX_LINE_BYTES,
    ensures
        (
        {
            let (c1, o1) = read_step(c, ReadEventModel::Data(a + b));
            let (c2, o2) = read_step(c1, ReadEventModel::WouldBlock);
            let (c3, o3) = read_step(c2, ReadEventModel::WouldBlock);
            o1 == ReadOutcomeModel::Message(decode_utf8(a)) && o2 == ReadOutcomeModel::Message(
                decode_utf8(b),
            ) && o3 == ReadOutcomeModel::NeedMore && c3.read_buf.len() == 0
        }),
{
    crate::framing::lemma_line_len_at_first_newline(a, a.len() - 1);
    crate::framing::lemma_line_len_at_first_newline(b, b.len() - 1);
    crate::framing::lemma_line_len_append(a, b);
    assert(c.read_buf + (a + b) =~= a + b);
    assert(has_line(a + b)) by {
        assert((a + b)[a.len() - 1] == crate::framing::LINE_FEED);
    }
    assert(line_len(a) == a.len());
    assert(first_line(a + b) =~= a);
    assert(after_first_line(a + b) =~= b);
    let (c1, o1) = read_step(c, ReadEventModel::Data(a + b));
    assert(c1.read_buf == b);
    assert(has_line(b)) by {
        assert(b[b.len() - 1] == crate::framing::LINE_FEED);
    }
    assert(first_line(b) =~= b);
    assert(after_first_line(b) =~= Seq::<u8>::empty());
    let (c2, o2) = read_step(c1, ReadEventModel::WouldBlock);
    assert(c2.read_buf.len() == 0);
    assert(!has_line(c2.read_buf));
}

/// Represents a single connection to the chat server.
pub struct ChatConnection {
    /// The token under which the socket is registered with the reactor.
    token: usize,
    /// Whether the reactor should watch the socket for readability.
    interest_readable: bool,
    /// Whether the reactor should watch the socket for writability.
    interest_writable: bool,
    /// Bytes read from this connection and not yet framed into a line.
    read_buf: Vec<u8>,
    /// Messages queued to be written, each shared with its other
    /// recipients.
    send_queue: VecDeque<Rc<Vec<u8>>>,
    /// Is this connection open or closed.
    state: ChatConnectionState,
    /// Consecutive failed reads; the connection closes at three.
    failed_read_attempts: u32,
    /// Consecutive failed writes; the connection closes at three.
    failed_write_attempts: u32,
}

/// The byte buffers of the outbound queue, in order.
pub open spec fn queue_view(q: Seq<Rc<Vec<u8>>>) -> Seq<Seq<u8>> {
    Seq::new(q.len(), |i: int| q[i]@)
}

impl View for ChatConnection {
    type V = ConnModel;

    closed spec fn view(&self) -> ConnModel {
        ConnModel {
            token: self.token,
            interest_readable: self.interest_readable,
            interest_writable: self.interest_writable,
            read_buf: self.read_buf@,
            send_queue: queue_view(self.send_queue@),
            state: self.state,
            failed_reads: self.failed_read_attempts,
            failed_writes: self.failed_write_attempts,
        }
    }
}

impl ChatConnection {
    pub fn new(token: usize) -> (c: ChatConnection)
        ensures
            c@ == (ConnModel {
                token,
                interest_readable: true,
                interest_writable: true,
                read_buf: Seq::empty(),
                send_queue: Seq::empty(),
                state: ChatConnectionState::Open,
                failed_reads: 0,
                failed_writes: 0,
            }),
            c@.inv(),
    {
        let c = ChatConnection {
            token,
            interest_readable: true,
            interest_writable: true,
            read_buf: Vec::new(),
            send_queue: VecDeque::new(),
            state: ChatConnectionState::Open,
            failed_read_attempts: 0,
            failed_write_attempts: 0,
        };
        proof {
            assert(c@.send_queue =~= Seq::<Seq<u8>>::empty());
            assert(c@ =~= (ConnModel {
                token,
                interest_readable: true,
                interest_writable: true,
                read_buf: Seq::empty(),
                send_queue: Seq::empty(),
                state: ChatConnectionState::Open,
                failed_reads: 0,
                failed_writes: 0,
            }));
        }
        c
    }

    /// The interest set to watch the socket with: (readable, writable).
    pub fn interest(&self) -> (r: (bool, bool))
        ensures
            r.0 == self@.interest_readable,
            r.1 == self@.interest_writable,
    {
        (self.interest_readable, self.interest_writable)
    }

    pub fn is_closed(&self) -> (r: bool)
        ensures
            r == (self@.state == ChatConnectionState::Closed),
    {
        self.state == ChatConnectionState::Closed
    }

    /// Transition to `Closed` without touching the socket; the `/quit`
    /// path.
    pub fn quit(&mut self)
        ensures
            final(self)@ == (ConnModel { state: ChatConnectionState::Closed, ..old(self)@ }),
    {
        self.state = ChatConnectionState::Closed;
        proof {
            assert(self@ =~= (ConnModel { state: ChatConnectionState::Closed, ..old(self)@ }));
        }
    }

    /// Queue a shared buffer to be written to this connection and start
    /// watching for writability.
    pub fn send_message(&mut self, message: Rc<Vec<u8>>)
        ensures
            final(self)@ == (ConnModel {
                send_queue: old(self)@.send_queue.push(message@),
                interest_writable: true,
                ..old(self)@
            }),
    {
        self.send_queue.push_back(message);
        self.interest_writable = true;
        proof {
            assert(self@.send_queue =~= old(self)@.send_queue.push(message@));
            assert(self@ =~= (ConnModel {
                send_queue: old(self)@.send_queue.push(message@),
                interest_writable: true,
                ..old(self)@
            }));
        }
    }

    /// A shared handle to the head of the outbound queue, if any; what the
    /// next write should carry.
    pub fn head_message(&self) -> (r: Option<Rc<Vec<u8>>>)
        ensures
            match r {
                Some(m) => self@.send_queue.len() > 0 && m@ == self@.send_queue[0],
                None => self@.send_queue.len() == 0,
            },
    {
        if self.send_queue.len() == 0 {
            None
        } else {
            Some(share_buffer(&self.send_queue[0]))
        }
    }

    /// Number of bytes, up to and including the terminator, that form the
    /// buffered line ready to be handed on; `None` when no line is
    /// complete yet.
    fn is_ready_to_write(&self) -> (r: Option<usize>)
        ensures
            match r {
                Some(l) => has_line(self@.read_buf) && l == line_len(self@.read_buf),
                None => !has_line(self@.read_buf),
            },
    {
        let n = self.read_buf.len();
        let mut i: usize = 0;
        while i < n
            invariant
                i <= n,
                n == self@.read_buf.len(),
                forall|k: int| 0 <= k < i ==> self@.read_buf[k] != crate::framing::LINE_FEED,
            decreases n - i,
        {
            if self.read_buf[i] == crate::framing::LINE_FEED {
                proof {
                    crate::framing::lemma_line_len_at_first_newline(self@.read_buf, i as int);
                }
                return Some(i + 1);
            }
            i = i + 1;
        }
        proof {
            crate::framing::lemma_line_len_bounds(self@.read_buf);
        }
        None
    }

    /// Take the leading complete line out of the buffer and judge its
    /// UTF-8.
    fn try_extract(&mut self) -> (r: ReadOutcome)
        ensures
            (
            {
                let (c2, o) = extract_step(old(self)@);
                final(self)@ == c2 && r@ == o
            }),
    {
        match self.is_ready_to_write() {
            None => {
                proof {
                    assert(self@ =~= old(self)@);
                }
                ReadOutcome::NeedMore
            },
            Some(line_bytes) => {
                proof {
                    crate::framing::lemma_line_len_bounds(self@.read_buf);
                }
                let mut rest = self.read_buf.split_off(line_bytes);
                core::mem::swap(&mut self.read_buf, &mut rest);
                let line = rest;
                proof {
                    assert(line@ =~= first_line(old(self)@.read_buf));
                    assert(self@.read_buf =~= after_first_line(old(self)@.read_buf));
                    assert(self@ =~= (ConnModel {
                        read_buf: after_first_line(old(self)@.read_buf),
                        ..old(self)@
                    }));
                }
                match bytes_to_string(line) {
                    Some(s) => ReadOutcome::Message(s),
                    None => ReadOutcome::InvalidUtf8,
                }
            },
        }
    }

    /// Step the read-failure counter and close the connection at three.
    fn bump_failed_read(&mut self)
        ensures
            final(self)@ == (ConnModel {
                failed_reads: bump_failures(old(self)@.failed_reads),
                state: state_after_failure(
                    bump_failures(old(self)@.failed_reads),
                    old(self)@.state,
                ),
                ..old(self)@
            }),
    {
        if self.failed_read_attempts < 3 {
            self.failed_read_attempts = self.failed_read_attempts + 1;
        }
        if self.failed_read_attempts >= 3 {
            self.state = ChatConnectionState::Closed;
        }
        proof {
            assert(self@ =~= (ConnModel {
                failed_reads: bump_failures(old(self)@.failed_reads),
                state: state_after_failure(
                    bump_failures(old(self)@.failed_reads),
                    old(self)@.state,
                ),
                ..old(self)@
            }));
        }
    }

    /// Step the write-failure counter and close the connection at three.
    fn bump_failed_write(&mut self)
        ensures
            final(self)@ == (ConnModel {
                failed_writes: bump_failures(old(self)@.failed_writes),
                state: state_after_failure(
                    bump_failures(old(self)@.failed_writes),
                    old(self)@.state,
                ),
                ..old(self)@
            }),
    {
        if self.failed_write_attempts < 3 {
            self.failed_write_attempts = self.failed_write_attempts + 1;
        }
        if self.failed_write_attempts >= 3 {
            self.state = ChatConnectionState::Closed;
        }
        proof {
            assert(self@ =~= (ConnModel {
                failed_writes: bump_failures(old(self)@.failed_writes),
                state: state_after_failure(
                    bump_failures(old(self)@.failed_writes),
                    old(self)@.state,
                ),
                ..old(self)@
            }));
        }
    }

    /// Absorb one read event: buffer new bytes, frame at most one line,
    /// and keep the failure and lifecycle bookkeeping.
    ///
    /// A would-block read yields no bytes but still frames a line that
    /// is already buffered, so when one chunk carried several lines the
    /// later ones are handed out on the following readable events and
    /// none is ever stranded.
    pub fn read(&mut self, ev: ReadEvent) -> (r: ReadOutcome)
        requires
            old(self)@.inv(),
        ensures
            (
            {
                let (c2, o) = read_step(old(self)@, ev@);
                final(self)@ == c2 && r@ == o
            }),
            final(self)@.inv(),
    {
        match ev {
            ReadEvent::Eof => {
                self.state = ChatConnectionState::Closed;
                proof {
                    assert(self@ =~= (ConnModel {
                        state: ChatConnectionState::Closed,
                        ..old(self)@
                    }));
                }
                ReadOutcome::Disconnected
            },
            ReadEvent::WouldBlock => {
                self.failed_read_attempts = 0;
                proof {
                    assert(self@ =~= (ConnModel { failed_reads: 0, ..old(self)@ }));
                    crate::framing::lemma_line_len_bounds(self@.read_buf);
                }
                self.try_extract()
            },
            ReadEvent::Fault => {
                self.bump_failed_read();
                ReadOutcome::IoError
            },
            ReadEvent::Data(d) => {
                if d.len() > MAX_LINE_BYTES - self.read_buf.len() {
                    self.read_buf.clear();
                    self.bump_failed_read();
                    proof {
                        assert(self@ =~= read_step(old(self)@, ev@).0);
                    }
                    ReadOutcome::IoError
                } else {
                    self.failed_read_attempts = 0;
                    self.read_buf.extend_from_slice(d.as_slice());
                    proof {
                        assert(self@ =~= (ConnModel {
                            read_buf: old(self)@.read_buf + d@,
                            failed_reads: 0,
                            ..old(self)@
                        }));
                        crate::framing::lemma_line_len_bounds(self@.read_buf);
                    }
                    self.try_extract()
                }
            },
        }
    }

    /// Absorb the result of writing the head buffer: drop or requeue it
    /// and keep the failure and lifecycle bookkeeping. The writable
    /// interest is cleared when the queue empties.
    pub fn write(&mut self, ev: WriteEvent)
        requires
            old(self)@.send_queue.len() > 0,
        ensures
            final(self)@ == write_step(old(self)@, ev),
    {
        match ev {
            WriteEvent::Accepted => {
                self.send_queue.pop_front();
                self.failed_write_attempts = 0;
                self.interest_writable = self.send_queue.len() > 0;
                proof {
                    assert(self@.send_queue =~= old(self)@.send_queue.drop_first());
                    assert(self@ =~= write_step(old(self)@, ev));
                }
            },
            WriteEvent::WouldBlock => {
                self.bump_failed_write();
                proof {
                    assert(self@ =~= write_step(old(self)@, ev));
                }
            },
            WriteEvent::Fault => {
                self.send_queue.pop_front();
                self.bump_failed_write();
                self.interest_writable = self.send_queue.len() > 0;
                proof {
                    assert(self@.send_queue =~= old(self)@.send_queue.drop_first());
                    assert(self@ =~= write_step(old(self)@, ev));
                }
            },
        }
    }

    /// A writable event found nothing queued: stop watching for
    /// writability.
    pub fn write_idle(&mut self)
        ensures
            final(self)@ == (ConnModel { interest_writable: false, ..old(self)@ }),
    {
        self.interest_writable = false;
        proof {
            assert(self@ =~= (ConnModel { interest_writable: false, ..old(self)@ }));
        }
    }
}

/// Relies on String::from_utf8: `Ok` exactly when the bytes are valid
/// UTF-8, and then the string is their decoding.
#[verifier::external_body]
fn bytes_to_string(v: Vec<u8>) -> (r: Option<String>)
    ensures
        match r {
            Some(s) => valid_utf8(v@) && s@ == decode_utf8(v@),
            None => !valid_utf8(v@),
        },
{
    match String::from_utf8(v) {
        Ok(s) => Some(s),
        Err(_) => None,
    }
}

/// Relies on Rc::clone: the clone is another handle to the same
/// allocation, so it carries the same bytes.
#[verifier::external_body]
pub(crate) fn share_buffer(m: &Rc<Vec<u8>>) -> (r: Rc<Vec<u8>>)
    ensures
        r == *m,
{
    Rc::clone(m)
}

} // verus!
