//! The server: the connection table, the chat state, and the routing of
//! socket events into both.
//!
//! The listening socket and the readiness loop live outside the library.
//! The loop accepts sockets, reads and writes them, and hands every
//! result here as a plain event; the server decides everything else —
//! which connection gains which queued bytes, how lines are interpreted,
//! and when a connection is reset and its user forgotten.

use std::rc::Rc;
use vstd::prelude::*;
use vstd::utf8::encode_utf8;

use crate::app::{
    register_model, register_ok, recipients_model, remove_model, move_model, AppModel, ChatApp,
    RegisterError,
};
use crate::clock::TimeParts;
use crate::command::{
    first_word, is_command, parse_command, spec_is_command, ChatCommand, CommandModel,
};
use crate::connection::{
    read_step, write_step, ChatConnection, ChatConnectionState, ConnModel, ReadEvent,
    ReadEventModel, ReadOutcome, ReadOutcomeModel, WriteEvent,
};
use crate::message::{broadcast_payload, build_broadcast_payload};

verus! {

/// The token of the listening socket; never a key of the connection
/// table.
pub const SERVER_TOKEN: usize = 1;

/// The smallest token a client connection can receive.
pub const FIRST_CLIENT_TOKEN: usize = 2;

/// The cap on simultaneously open client connections.
pub const MAX_CONNECTIONS: usize = 1024;

/// The mathematical value of the server: the open connections by token,
/// and the chat state.
#[verifier::ext_equal]
pub struct ServerModel {
    pub connections: Map<usize, ConnModel>,
    pub app: AppModel,
}

/// The connection held in a slot; meaningless for an empty slot.
pub open spec fn slot_conn(o: Option<ChatConnection>) -> ConnModel {
    match o {
        Option::Some(c) => c@,
        Option::None => vstd::pervasive::arbitrary(),
    }
}

/// Whether a slot's connection keeps its buffer bound.
pub open spec fn slot_inv(o: Option<ChatConnection>) -> bool {
    match o {
        Option::Some(c) => c@.inv(),
        Option::None => true,
    }
}

/// The connection table as a map from token to connection value.
pub open spec fn conns_map(s: Seq<Option<ChatConnection>>) -> Map<usize, ConnModel> {
    Map::new(
        |t: usize|
            t >= FIRST_CLIENT_TOKEN && t - FIRST_CLIENT_TOKEN < s.len() && s[t
                - FIRST_CLIENT_TOKEN] is Some,
        |t: usize| slot_conn(s[t - FIRST_CLIENT_TOKEN]),
    )
}

/// A queued payload added at the tail, and the connection watching for
/// writability.
pub open spec fn enqueue_to(c: ConnModel, payload: Seq<u8>) -> ConnModel {
    ConnModel { send_queue: c.send_queue.push(payload), interest_writable: true, ..c }
}

/// One payload fanned out: every recipient's queue gains it, every other
/// connection stands as it was.
pub open spec fn fanout(
    conns: Map<usize, ConnModel>,
    rcpts: Set<usize>,
    payload: Seq<u8>,
) -> Map<usize, ConnModel> {
    Map::new(
        |t: usize| conns.dom().contains(t),
        |t: usize|
            if rcpts.contains(t) {
                enqueue_to(conns[t], payload)
            } else {
                conns[t]
            },
    )
}

/// A reply queued on one connection; the rest of the state stands.
pub open spec fn reply_to(s: ServerModel, t: usize, payload: Seq<u8>) -> ServerModel {
    ServerModel {
        connections: s.connections.insert(t, enqueue_to(s.connections[t], payload)),
        ..s
    }
}

/// A connection reset: it leaves the table and its user, if any, is
/// forgotten.
pub open spec fn reset_spec(s: ServerModel, t: usize) -> ServerModel {
    ServerModel { connections: s.connections.remove(t), app: remove_model(s.app, t) }
}

/// Reset the connection exactly when it has transitioned to `Closed`.
pub open spec fn settle_spec(s: ServerModel, t: usize) -> ServerModel {
    if s.connections.dom().contains(t) && s.connections[t].state == ChatConnectionState::Closed {
        reset_spec(s, t)
    } else {
        s
    }
}

/// The greeting sent on accept.
pub open spec fn greeting_bytes() -> Seq<u8> {
    encode_utf8("Server: Select a username:\n"@)
}

/// The reply to a successful name claim.
pub open spec fn authorized_bytes() -> Seq<u8> {
    encode_utf8("Server: you have been successfully authorized\n"@)
}

/// The reply to a claim of a taken name.
pub open spec fn name_taken_bytes() -> Seq<u8> {
    encode_utf8("Server: That username is taken, please try another\n"@)
}

/// The notice sent when a framed line was not valid UTF-8.
pub open spec fn invalid_utf8_bytes() -> Seq<u8> {
    encode_utf8("Server: Invalid utf8, message was discarded.\n"@)
}

/// The reply to an unrecognized command.
pub open spec fn invalid_command_bytes() -> Seq<u8> {
    encode_utf8("Not a valid command\n"@)
}

/// The reply to a `/join`.
pub open spec fn moved_bytes(room: Seq<char>) -> Seq<u8> {
    encode_utf8("Moved to room "@) + encode_utf8(room) + encode_utf8("\n"@)
}

/// A freshly accepted connection: open, both interests armed, and the
/// greeting queued.
pub open spec fn fresh_conn(t: usize) -> ConnModel {
    ConnModel {
        token: t,
        interest_readable: true,
        interest_writable: true,
        read_buf: Seq::empty(),
        send_queue: seq![greeting_bytes()],
        state: ChatConnectionState::Open,
        failed_reads: 0,
        failed_writes: 0,
    }
}

/// Overwriting one occupied-or-free slot inserts its connection into the
/// table view.
proof fn lemma_conns_map_set_slot(s: Seq<Option<ChatConnection>>, i: int, c: ChatConnection)
    requires
        0 <= i < s.len(),
        i + FIRST_CLIENT_TOKEN <= usize::MAX,
    ensures
        conns_map(s.update(i, Some(c))) == conns_map(s).insert(
            (i + FIRST_CLIENT_TOKEN) as usize,
            c@,
        ),
{
    let s2 = s.update(i, Some(c));
    let t0 = (i + FIRST_CLIENT_TOKEN) as usize;
    let m2 = conns_map(s).insert(t0, c@);
    assert forall|t: usize| #[trigger] conns_map(s2).dom().contains(t) <==> m2.dom().contains(
        t,
    ) by {
        if t != t0 && t >= FIRST_CLIENT_TOKEN && t - FIRST_CLIENT_TOKEN < s.len() {
            assert(s2[t - FIRST_CLIENT_TOKEN] == s[t - FIRST_CLIENT_TOKEN]);
        }
    }
    assert forall|t: usize| #[trigger] conns_map(s2).dom().contains(t) implies conns_map(s2)[t]
        == m2[t] by {
        if t != t0 {
            assert(s2[t - FIRST_CLIENT_TOKEN] == s[t - FIRST_CLIENT_TOKEN]);
        }
    }
    assert(conns_map(s2) =~= m2);
}

/// Appending a slot inserts its connection under the next token.
proof fn lemma_conns_map_push(s: Seq<Option<ChatConnection>>, c: ChatConnection)
    requires
        s.len() + FIRST_CLIENT_TOKEN <= usize::MAX,
    ensures
        conns_map(s.push(Some(c))) == conns_map(s).insert(
            (s.len() + FIRST_CLIENT_TOKEN) as usize,
            c@,
        ),
{
    let s2 = s.push(Some(c));
    let t0 = (s.len() + FIRST_CLIENT_TOKEN) as usize;
    let m2 = conns_map(s).insert(t0, c@);
    assert forall|t: usize| #[trigger] conns_map(s2).dom().contains(t) <==> m2.dom().contains(
        t,
    ) by {
        if t != t0 && t >= FIRST_CLIENT_TOKEN && t - FIRST_CLIENT_TOKEN < s.len() {
            assert(s2[t - FIRST_CLIENT_TOKEN] == s[t - FIRST_CLIENT_TOKEN]);
        }
    }
    assert forall|t: usize| #[trigger] conns_map(s2).dom().contains(t) implies conns_map(s2)[t]
        == m2[t] by {
        if t != t0 {
            assert(s2[t - FIRST_CLIENT_TOKEN] == s[t - FIRST_CLIENT_TOKEN]);
        }
    }
    assert(conns_map(s2) =~= m2);
}

/// Emptying one slot removes its token from the table view.
proof fn lemma_conns_map_clear_slot(s: Seq<Option<ChatConnection>>, i: int)
    requires
        0 <= i < s.len(),
        i + FIRST_CLIENT_TOKEN <= usize::MAX,
    ensures
        conns_map(s.update(i, None)) == conns_map(s).remove((i + FIRST_CLIENT_TOKEN) as usize),
{
    let s2 = s.update(i, Option::<ChatConnection>::None);
    let t0 = (i + FIRST_CLIENT_TOKEN) as usize;
    let m2 = conns_map(s).remove(t0);
    assert forall|t: usize| #[trigger] conns_map(s2).dom().contains(t) <==> m2.dom().contains(
        t,
    ) by {
        if t != t0 && t >= FIRST_CLIENT_TOKEN && t - FIRST_CLIENT_TOKEN < s.len() {
            assert(s2[t - FIRST_CLIENT_TOKEN] == s[t - FIRST_CLIENT_TOKEN]);
        }
    }
    assert forall|t: usize| #[trigger] conns_map(s2).dom().contains(t) implies conns_map(s2)[t]
        == m2[t] by {
        assert(s2[t - FIRST_CLIENT_TOKEN] == s[t - FIRST_CLIENT_TOKEN]);
    }
    assert(conns_map(s2) =~= m2);
}

/// Updating one occupied slot rewrites its connection in the table view.
proof fn lemma_conns_map_mutate_slot(s: Seq<Option<ChatConnection>>, i: int, o: Option<
    ChatConnection,
>)
    requires
        0 <= i < s.len(),
        i + FIRST_CLIENT_TOKEN <= usize::MAX,
        o is Some,
    ensures
        conns_map(s.update(i, o)) == conns_map(s).insert(
            (i + FIRST_CLIENT_TOKEN) as usize,
            slot_conn(o),
        ),
{
    match o {
        Option::Some(c) => {
            lemma_conns_map_set_slot(s, i, c);
        },
        Option::None => {
            assert(false);
        },
    }
}

/// A connection transitioned to `Closed` in place.
pub open spec fn quit_conn(c: ConnModel) -> ConnModel {
    ConnModel { state: ChatConnectionState::Closed, ..c }
}

/// The views of a list of strings.
pub open spec fn views_of(v: Seq<String>) -> Seq<Seq<char>> {
    Seq::new(v.len(), |i: int| v[i]@)
}

/// `names` is one ordering of the room names: each exactly once.
pub open spec fn lists_rooms(names: Seq<Seq<char>>, dom: Set<Seq<char>>) -> bool {
    &&& forall|i: int| 0 <= i < names.len() ==> dom.contains(#[trigger] names[i])
    &&& forall|n: Seq<char>| #[trigger] dom.contains(n) ==> names.contains(n)
    &&& forall|i: int, j: int| 0 <= i < j < names.len() ==> names[i] != names[j]
}

/// The `/rooms` reply: each listed name followed by a line terminator.
pub open spec fn room_list_bytes(names: Seq<Seq<char>>) -> Seq<u8>
    decreases names.len(),
{
    if names.len() == 0 {
        seq![]
    } else {
        encode_utf8(names[0]) + seq![0x0au8] + room_list_bytes(names.drop_first())
    }
}

proof fn lemma_room_list_bytes_push(names: Seq<Seq<char>>, x: Seq<char>)
    ensures
        room_list_bytes(names.push(x)) == room_list_bytes(names) + encode_utf8(x) + seq![0x0au8],
    decreases names.len(),
{
    let s2 = names.push(x);
    if names.len() == 0 {
        assert(s2.drop_first() =~= Seq::<Seq<char>>::empty());
        assert(room_list_bytes(names) =~= Seq::<u8>::empty());
        assert(s2[0] == x);
        assert(room_list_bytes(s2) == encode_utf8(x) + seq![0x0au8] + room_list_bytes(
            s2.drop_first(),
        ));
        assert(room_list_bytes(s2.drop_first()) =~= Seq::<u8>::empty());
        assert(encode_utf8(x) + seq![0x0au8] + Seq::<u8>::empty() =~= encode_utf8(x) + seq![
            0x0au8,
        ]);
        assert(room_list_bytes(names) + encode_utf8(x) + seq![0x0au8] =~= encode_utf8(x) + seq![
            0x0au8,
        ]);
    } else {
        assert(s2[0] == names[0]);
        assert(s2.drop_first() =~= names.drop_first().push(x));
        lemma_room_list_bytes_push(names.drop_first(), x);
        assert(room_list_bytes(s2) =~= room_list_bytes(names) + encode_utf8(x) + seq![0x0au8]);
    }
}

/// What handling one framed line does: a command is interpreted, a line
/// from an authorized user fans out, and any other line is a name claim.
pub open spec fn dispatch_spec(
    s1: ServerModel,
    token: usize,
    line: Seq<char>,
    s2: ServerModel,
) -> bool {
    if spec_is_command(line) {
        command_spec(s1, token, line, s2)
    } else if s1.app.users.dom().contains(token) {
        broadcast_spec(s1, token, line, s2)
    } else {
        claim_spec(s1, token, line, s2)
    }
}

/// The effect of a command line on the server.
pub open spec fn command_spec(
    s1: ServerModel,
    token: usize,
    line: Seq<char>,
    s2: ServerModel,
) -> bool {
    match parse_command(line) {
        Some(CommandModel::ListRooms) => exists|names: Seq<Seq<char>>|
            lists_rooms(names, s1.app.rooms.dom()) && s2 == reply_to(
                s1,
                token,
                room_list_bytes(names),
            ),
        Some(CommandModel::Quit) => s2 == (ServerModel {
            connections: s1.connections.insert(token, quit_conn(s1.connections[token])),
            ..s1
        }),
        Some(CommandModel::ChangeRoom(room)) => {
            if s1.app.users.dom().contains(token) {
                s2 == reply_to(
                    ServerModel { app: move_model(s1.app, token, room), ..s1 },
                    token,
                    moved_bytes(room),
                )
            } else {
                s2 == reply_to(s1, token, invalid_command_bytes())
            }
        },
        None => s2 == reply_to(s1, token, invalid_command_bytes()),
    }
}

/// The effect of a chat line from an authorized user: one payload, shared
/// by every other member of the sender's room, stamped with some reading
/// of the clock.
pub open spec fn broadcast_spec(
    s1: ServerModel,
    token: usize,
    line: Seq<char>,
    s2: ServerModel,
) -> bool {
    exists|ts: TimeParts|
        #![auto]
        ts.wf() && s2 == (ServerModel {
            connections: fanout(
                s1.connections,
                recipients_model(s1.app, token),
                broadcast_payload(ts, s1.app.users[token].name, line),
            ),
            ..s1
        })
}

/// The effect of a line from an unauthorized connection: its first word
/// claims a name; an empty line is ignored.
pub open spec fn claim_spec(
    s1: ServerModel,
    token: usize,
    line: Seq<char>,
    s2: ServerModel,
) -> bool {
    let w = first_word(line);
    if w.len() == 0 {
        s2 == s1
    } else if register_ok(s1.app, token, w) {
        s2 == reply_to(
            ServerModel { app: register_model(s1.app, token, w), ..s1 },
            token,
            authorized_bytes(),
        )
    } else {
        s2 == reply_to(s1, token, name_taken_bytes())
    }
}

/// What the server routes back to the loop after a read event.
#[derive(Clone, Copy, Debug, PartialEq, Eq, Structural)]
pub enum ReadDisposition {
    /// The connection closed and was removed from the table.
    Removed,
    /// A complete line was framed and handled; more may be buffered.
    MessageHandled,
    /// Nothing to hand on yet; wait for the next event.
    Idle,
}

/// Represents the server's state for the chat app.
pub struct ChatServer {
    /// All the connections to the chat server; slot `i` holds the
    /// connection with token `i + FIRST_CLIENT_TOKEN`.
    connections: Vec<Option<ChatConnection>>,
    /// The user, room, and name registries.
    app: ChatApp,
}

impl View for ChatServer {
    type V = ServerModel;

    closed spec fn view(&self) -> ServerModel {
        ServerModel { connections: conns_map(self.connections@), app: self.app@ }
    }
}

impl ChatServer {
    /// The representation invariants: the slot table stays within its
    /// cap, the chat state keeps its own invariants, every registered
    /// user owns a live connection, and every buffered line stays within
    /// its cap.
    pub closed spec fn inv(self) -> bool {
        &&& self.connections@.len() <= MAX_CONNECTIONS
        &&& self.app.inv()
        &&& self@.app.wf()
        &&& forall|t: usize| #[trigger]
            self@.app.users.dom().contains(t) ==> self@.connections.dom().contains(t)
        &&& forall|i: int|
            0 <= i < self.connections@.len() ==> slot_inv(#[trigger] self.connections@[i])
    }

    /// The listener's token is never a key of the connection table.
    pub proof fn lemma_listener_not_in_table(self)
        ensures
            !self@.connections.dom().contains(SERVER_TOKEN),
    {
    }

    /// A fresh server: no connections, the initial chat state.
    pub fn new() -> (s: ChatServer)
        ensures
            s.inv(),
            s@.connections == Map::<usize, ConnModel>::empty(),
            s@.app == AppModel::init(),
            s@.app.wf(),
    {
        let s = ChatServer { connections: Vec::new(), app: ChatApp::new() };
        proof {
            assert(s@.connections =~= Map::<usize, ConnModel>::empty());
        }
        s
    }

    /// Whether a token keys a live connection.
    pub fn has_connection(&self, token: usize) -> (r: bool)
        ensures
            r == self@.connections.dom().contains(token),
    {
        if token < FIRST_CLIENT_TOKEN {
            return false;
        }
        let idx = token - FIRST_CLIENT_TOKEN;
        if idx >= self.connections.len() {
            return false;
        }
        self.connections[idx].is_some()
    }

    /// The interest set the reactor should watch this connection with:
    /// (readable, writable).
    pub fn connection_interest(&self, token: usize) -> (r: (bool, bool))
        requires
            self@.connections.dom().contains(token),
        ensures
            r.0 == self@.connections[token].interest_readable,
            r.1 == self@.connections[token].interest_writable,
    {
        let idx = token - FIRST_CLIENT_TOKEN;
        match &self.connections[idx] {
            Some(c) => c.interest(),
            None => {
                proof {
                    assert(false);
                }
                (false, false)
            },
        }
    }

    /// Accept one new connection: allocate the lowest free token, create
    /// the connection, and queue the greeting. `None` only when every
    /// token up to the cap is taken.
    ///
    /// A new connection belongs to no room and is always unauthorized,
    /// even when its token was held by a registered user before: the
    /// user table is never consulted on accept.
    pub fn accept(&mut self) -> (r: Option<usize>)
        requires
            old(self).inv(),
        ensures
            final(self).inv(),
            final(self)@.app == old(self)@.app,
            match r {
                Some(t) => FIRST_CLIENT_TOKEN <= t && t < FIRST_CLIENT_TOKEN + MAX_CONNECTIONS
                    && !old(self)@.connections.dom().contains(t) && final(self)@.connections
                    == old(self)@.connections.insert(t, fresh_conn(t)),
                None => final(self)@ == old(self)@ && forall|t: usize|
                    FIRST_CLIENT_TOKEN <= t < FIRST_CLIENT_TOKEN + MAX_CONNECTIONS ==> old(
                        self,
                    )@.connections.dom().contains(t),
            },
    {
        let n = self.connections.len();
        if let Some(i) = self.find_free_slot() {
            let token = i + FIRST_CLIENT_TOKEN;
            let mut conn = ChatConnection::new(token);
            conn.send_message(Rc::new(greeting_vec()));
            proof {
                assert(conn@ =~= fresh_conn(token));
                assert(!old(self)@.connections.dom().contains(token));
            }
            let slot = &mut self.connections[i];
            *slot = Some(conn);
            proof {
                assert(self.connections@ == old(self).connections@.update(i as int, Some(conn)));
                lemma_conns_map_set_slot(old(self).connections@, i as int, conn);
                assert(self@.connections =~= old(self)@.connections.insert(
                    token,
                    fresh_conn(token),
                ));
                assert forall|k: int| 0 <= k < self.connections@.len() implies slot_inv(
                    #[trigger] self.connections@[k],
                ) by {
                    if k != i as int {
                        assert(self.connections@[k] == old(self).connections@[k]);
                    } else {
                        assert(conn@.inv());
                    }
                }
                assert forall|t: usize| #[trigger] self@.app.users.dom().contains(
                    t,
                ) implies self@.connections.dom().contains(t) by {
                    assert(old(self)@.app.users.dom().contains(t));
                    assert(old(self)@.connections.dom().contains(t));
                }
            }
            return Some(token);
        }
        if n < MAX_CONNECTIONS {
            let token = n + FIRST_CLIENT_TOKEN;
            let mut conn = ChatConnection::new(token);
            conn.send_message(Rc::new(greeting_vec()));
            proof {
                assert(conn@ =~= fresh_conn(token));
                assert(!old(self)@.connections.dom().contains(token));
            }
            self.connections.push(Some(conn));
            proof {
                lemma_conns_map_push(old(self).connections@, conn);
                assert(self@.connections =~= old(self)@.connections.insert(
                    token,
                    fresh_conn(token),
                ));
                assert forall|k: int| 0 <= k < self.connections@.len() implies slot_inv(
                    #[trigger] self.connections@[k],
                ) by {
                    if k < n as int {
                        assert(self.connections@[k] == old(self).connections@[k]);
                    } else {
                        assert(conn@.inv());
                    }
                }
                assert forall|t: usize| #[trigger] self@.app.users.dom().contains(
                    t,
                ) implies self@.connections.dom().contains(t) by {
                    assert(old(self)@.app.users.dom().contains(t));
                    assert(old(self)@.connections.dom().contains(t));
                }
            }
            Some(token)
        } else {
            proof {
                assert forall|t: usize|
                    FIRST_CLIENT_TOKEN <= t < FIRST_CLIENT_TOKEN
                        + MAX_CONNECTIONS implies old(self)@.connections.dom().contains(t) by {
                    assert(0 <= t - FIRST_CLIENT_TOKEN < n);
                    assert(self.connections@[t - FIRST_CLIENT_TOKEN] is Some);
                }
                assert(self@ =~= old(self)@);
            }
            None
        }
    }

    /// Queue a reply on one connection.
    fn enqueue_bytes(&mut self, token: usize, payload: Vec<u8>)
        requires
            old(self).inv(),
            old(self)@.connections.dom().contains(token),
        ensures
            final(self).inv(),
            final(self)@ == reply_to(old(self)@, token, payload@),
            final(self)@.connections.dom() == old(self)@.connections.dom(),
    {
        let ghost p = payload@;
        let idx = token - FIRST_CLIENT_TOKEN;
        match &mut self.connections[idx] {
            Some(conn) => conn.send_message(Rc::new(payload)),
            None => {
                proof {
                    assert(false);
                }
            },
        }
        proof {
            let o2 = self.connections@[idx as int];
            assert(self.connections@ == old(self).connections@.update(idx as int, o2));
            assert(o2 is Some);
            assert(slot_conn(o2) == enqueue_to(old(self)@.connections[token], p));
            lemma_conns_map_mutate_slot(old(self).connections@, idx as int, o2);
            assert(self@.connections =~= reply_to(old(self)@, token, p).connections);
            assert(self@ =~= reply_to(old(self)@, token, p));
            assert(self@.connections.dom() =~= old(self)@.connections.dom());
            assert forall|k: int| 0 <= k < self.connections@.len() implies slot_inv(
                #[trigger] self.connections@[k],
            ) by {
                if k != idx as int {
                    assert(self.connections@[k] == old(self).connections@[k]);
                }
            }
        }
    }

    /// Handle a `/`-prefixed line: list the rooms, move the sender,
    /// close the sender, or report the command as unrecognized.
    fn handle_command_message(&mut self, token: usize, message: &String)
        requires
            old(self).inv(),
            old(self)@.connections.dom().contains(token),
        ensures
            final(self).inv(),
            command_spec(old(self)@, token, message@, final(self)@),
            final(self)@.connections.dom() == old(self)@.connections.dom(),
    {
        match ChatCommand::new(message) {
            Some(ChatCommand::ListRooms) => {
                let list = self.app.get_room_list();
                let ghost names = views_of(list@);
                let mut payload: Vec<u8> = Vec::new();
                let n = list.len();
                let mut i: usize = 0;
                while i < n
                    invariant
                        i <= n,
                        n == list@.len(),
                        payload@ == room_list_bytes(views_of(list@).take(i as int)),
                    decreases n - i,
                {
                    proof {
                        assert(views_of(list@).take(i as int + 1) =~= views_of(list@).take(
                            i as int,
                        ).push(list@[i as int]@));
                        lemma_room_list_bytes_push(
                            views_of(list@).take(i as int),
                            list@[i as int]@,
                        );
                    }
                    payload.extend_from_slice(list[i].as_str().as_bytes());
                    payload.push(0x0a);
                    proof {
                        assert(payload@ =~= room_list_bytes(views_of(list@).take(i as int + 1)));
                    }
                    i = i + 1;
                }
                proof {
                    assert(views_of(list@).take(n as int) =~= names);
                    assert forall|nm: Seq<char>| #[trigger] old(self)@.app.rooms.dom().contains(
                        nm,
                    ) implies names.contains(nm) by {
                        let j = choose|j: int| 0 <= j < list@.len() && list@[j]@ == nm;
                        assert(names[j] == nm);
                    }
                    assert(lists_rooms(names, old(self)@.app.rooms.dom()));
                }
                self.enqueue_bytes(token, payload);
                proof {
                    assert(lists_rooms(names, old(self)@.app.rooms.dom()) && final(self)@
                        == reply_to(old(self)@, token, room_list_bytes(names)));
                }
            },
            Some(ChatCommand::Quit) => {
                let idx = token - FIRST_CLIENT_TOKEN;
                match &mut self.connections[idx] {
                    Some(conn) => conn.quit(),
                    None => {
                        proof {
                            assert(false);
                        }
                    },
                }
                proof {
                    let o2 = self.connections@[idx as int];
                    assert(self.connections@ == old(self).connections@.update(idx as int, o2));
                    assert(o2 is Some);
                    assert(slot_conn(o2) == quit_conn(old(self)@.connections[token]));
                    lemma_conns_map_mutate_slot(old(self).connections@, idx as int, o2);
                    assert(self@.connections =~= old(self)@.connections.insert(
                        token,
                        quit_conn(old(self)@.connections[token]),
                    ));
                    assert(self@ =~= (ServerModel {
                        connections: old(self)@.connections.insert(
                            token,
                            quit_conn(old(self)@.connections[token]),
                        ),
                        ..old(self)@
                    }));
                    assert(self@.connections.dom() =~= old(self)@.connections.dom());
                    assert forall|k: int| 0 <= k < self.connections@.len() implies slot_inv(
                        #[trigger] self.connections@[k],
                    ) by {
                        if k != idx as int {
                            assert(self.connections@[k] == old(self).connections@[k]);
                        }
                    }
                }
            },
            Some(ChatCommand::ChangeRoom(room_name)) => {
                match self.app.get_username(token) {
                    Some(_) => {
                        self.app.move_rooms(token, &room_name);
                        proof {
                            assert(self@ =~= (ServerModel {
                                app: move_model(old(self)@.app, token, room_name@),
                                connections: old(self)@.connections,
                            }));
                            assert forall|t: usize| #[trigger] self@.app.users.dom().contains(
                                t,
                            ) implies self@.connections.dom().contains(t) by {
                                assert(old(self)@.app.users.dom().contains(t));
                            }
                        }
                        let mut payload: Vec<u8> = Vec::new();
                        payload.extend_from_slice("Moved to room ".as_bytes());
                        payload.extend_from_slice(room_name.as_str().as_bytes());
                        payload.extend_from_slice("\n".as_bytes());
                        proof {
                            assert(payload@ =~= moved_bytes(room_name@));
                        }
                        self.enqueue_bytes(token, payload);
                    },
                    None => {
                        // a `/join` before any name is claimed has no user
                        // to move; it is answered like an unrecognized
                        // command
                        self.enqueue_bytes(token, invalid_command_vec());
                    },
                }
            },
            None => {
                self.enqueue_bytes(token, invalid_command_vec());
            },
        }
    }

    /// A line from a connection with no user yet: its first
    /// whitespace-delimited word is a name claim; empty input is ignored.
    fn handle_message_from_unauthorized_user(&mut self, token: usize, message: String)
        requires
            old(self).inv(),
            old(self)@.connections.dom().contains(token),
            !old(self)@.app.users.dom().contains(token),
        ensures
            final(self).inv(),
            claim_spec(old(self)@, token, message@, final(self)@),
            final(self)@.connections.dom() == old(self)@.connections.dom(),
    {
        let s = message.as_str();
        let n = s.unicode_len();
        let ws = crate::command::scan_spaces(s, 0, n);
        let we = crate::command::scan_word(s, ws, n);
        if ws == we {
            proof {
                assert(first_word(message@).len() == 0);
            }
            return ;
        }
        let name = s.substring_char(ws, we).to_owned();
        let ghost w = name@;
        proof {
            assert(w == first_word(message@));
            assert(w.len() > 0);
        }
        match self.app.register_user(token, name) {
            Ok(_) => {
                proof {
                    assert(self@ =~= (ServerModel {
                        app: register_model(old(self)@.app, token, w),
                        connections: old(self)@.connections,
                    }));
                    assert forall|t: usize| #[trigger] self@.app.users.dom().contains(
                        t,
                    ) implies self@.connections.dom().contains(t) by {
                        if t != token {
                            assert(old(self)@.app.users.dom().contains(t));
                        }
                    }
                }
                self.enqueue_bytes(token, authorized_vec());
            },
            Err(RegisterError::NameTaken) => {
                proof {
                    assert(!register_ok(old(self)@.app, token, w));
                }
                self.enqueue_bytes(token, name_taken_vec());
            },
            Err(RegisterError::TokenAlreadyRegistered) => {
                proof {
                    assert(false);
                }
            },
        }
    }

    /// A chat line from an authorized user: stamp it, wrap it once, and
    /// queue it on every other member of the sender's room.
    fn handle_message_from_authorized_user(
        &mut self,
        token: usize,
        username: String,
        message: String,
    )
        requires
            old(self).inv(),
            old(self)@.connections.dom().contains(token),
            old(self)@.app.users.dom().contains(token),
            username@ == old(self)@.app.users[token].name,
        ensures
            final(self).inv(),
            broadcast_spec(old(self)@, token, message@, final(self)@),
            final(self)@.connections.dom() == old(self)@.connections.dom(),
    {
        let ts = TimeParts::now();
        let payload = build_broadcast_payload(&ts, &username, &message);
        let ghost pl = payload@;
        let message_rc = Rc::new(payload);
        let recipients = self.app.get_message_recipients(token);
        let ghost rset = recipients@.to_set();
        proof {
            assert(rset == recipients_model(old(self)@.app, token));
            assert forall|k: int| 0 <= k < recipients@.len() implies old(
                self,
            )@.connections.dom().contains(#[trigger] recipients@[k]) by {
                let t = recipients@[k];
                assert(rset.contains(t));
                assert(recipients_model(old(self)@.app, token).contains(t));
                let room = old(self)@.app.users[token].room;
                assert(old(self)@.app.rooms.dom().contains(room));
                assert(old(self)@.app.rooms[room].contains(t));
                assert(old(self)@.app.users.dom().contains(t));
            }
        }
        let n = recipients.len();
        let mut i: usize = 0;
        while i < n
            invariant
                i <= n,
                n == recipients@.len(),
                message_rc@ == pl,
                self.inv(),
                self@.app == old(self)@.app,
                self@.connections.dom() == old(self)@.connections.dom(),
                self@.connections == fanout(
                    old(self)@.connections,
                    recipients@.take(i as int).to_set(),
                    pl,
                ),
                crate::app::members_unique(recipients@),
                forall|k: int|
                    0 <= k < recipients@.len() ==> old(self)@.connections.dom().contains(
                        #[trigger] recipients@[k],
                    ),
            decreases n - i,
        {
            let t = recipients[i];
            proof {
                assert(old(self)@.connections.dom().contains(t));
                assert(self@.connections.dom().contains(t));
                assert(t >= FIRST_CLIENT_TOKEN);
            }
            let ghost pre = self@.connections;
            let ghost pre_seq = self.connections@;
            let idx = t - FIRST_CLIENT_TOKEN;
            match &mut self.connections[idx] {
                Some(conn) => conn.send_message(crate::connection::share_buffer(&message_rc)),
                None => {
                    proof {
                        assert(false);
                    }
                },
            }
            proof {
                let o2 = self.connections@[idx as int];
                assert(self.connections@ == pre_seq.update(idx as int, o2));
                assert(o2 is Some);
                assert(slot_conn(o2) == enqueue_to(pre[t], pl));
                lemma_conns_map_mutate_slot(pre_seq, idx as int, o2);
                assert(self@.connections == pre.insert(t, enqueue_to(pre[t], pl)));
                assert(!recipients@.take(i as int).to_set().contains(t)) by {
                    if recipients@.take(i as int).to_set().contains(t) {
                        let k = choose|k: int|
                            0 <= k < recipients@.take(i as int).len() && recipients@.take(
                                i as int,
                            )[k] == t;
                        assert(recipients@[k] == t && recipients@[i as int] == t);
                    }
                }
                assert(pre[t] == old(self)@.connections[t]);
                assert(recipients@.take(i as int + 1) =~= recipients@.take(i as int).push(t));
                crate::app::lemma_to_set_push(recipients@.take(i as int), t);
                let set1 = recipients@.take(i as int + 1).to_set();
                let set0 = recipients@.take(i as int).to_set();
                assert(set1 == set0.insert(t));
                assert forall|u: usize| #[trigger] self@.connections.dom().contains(
                    u,
                ) implies self@.connections[u] == fanout(old(self)@.connections, set1, pl)[u] by {
                    if u != t {
                        assert(self@.connections[u] == pre[u]);
                        assert(set1.contains(u) == set0.contains(u));
                    }
                }
                assert(self@.connections =~= fanout(old(self)@.connections, set1, pl));
                assert forall|k: int| 0 <= k < self.connections@.len() implies slot_inv(
                    #[trigger] self.connections@[k],
                ) by {
                    if k != idx as int {
                        assert(self.connections@[k] == pre_seq[k]);
                    } else {
                        assert(slot_conn(o2).read_buf == slot_conn(pre_seq[k]).read_buf);
                    }
                }
                assert forall|u: usize| #[trigger] self@.app.users.dom().contains(
                    u,
                ) implies self@.connections.dom().contains(u) by {}
            }
            i = i + 1;
        }
        proof {
            assert(recipients@.take(n as int) =~= recipients@);
            assert(ts.wf() && final(self)@ == (ServerModel {
                connections: fanout(
                    old(self)@.connections,
                    recipients_model(old(self)@.app, token),
                    broadcast_payload(ts, old(self)@.app.users[token].name, message@),
                ),
                ..old(self)@
            }));
        }
    }

    /// Route one framed line: commands are dispatched, lines from
    /// authorized users fan out, anything else is a name claim.
    fn handle_message_read_from_client(&mut self, token: usize, message: String)
        requires
            old(self).inv(),
            old(self)@.connections.dom().contains(token),
        ensures
            final(self).inv(),
            dispatch_spec(old(self)@, token, message@, final(self)@),
            final(self)@.connections.dom() == old(self)@.connections.dom(),
    {
        if is_command(&message) {
            self.handle_command_message(token, &message);
            return ;
        }
        match self.app.get_username(token) {
            Some(username) => {
                self.handle_message_from_authorized_user(token, username, message);
            },
            None => {
                self.handle_message_from_unauthorized_user(token, message);
            },
        }
    }

    /// Handle one read event for a connection: frame at most one line,
    /// interpret it, and reset the connection if it has closed.
    pub fn read(&mut self, token: usize, ev: ReadEvent) -> (r: ReadDisposition)
        requires
            old(self).inv(),
            old(self)@.connections.dom().contains(token),
        ensures
            final(self).inv(),
            (
            {
                let (c2, o) = read_step(old(self)@.connections[token], ev@);
                let s1 = ServerModel {
                    connections: old(self)@.connections.insert(token, c2),
                    app: old(self)@.app,
                };
                match o {
                    ReadOutcomeModel::Message(line) => exists|s_mid: ServerModel|
                        #![auto]
                        dispatch_spec(s1, token, line, s_mid) && final(self)@ == settle_spec(
                            s_mid,
                            token,
                        ),
                    ReadOutcomeModel::InvalidUtf8 => final(self)@ == settle_spec(
                        reply_to(s1, token, invalid_utf8_bytes()),
                        token,
                    ),
                    _ => final(self)@ == settle_spec(s1, token),
                }
            }),
            (r == ReadDisposition::Removed) <==> !final(self)@.connections.dom().contains(token),
            r == ReadDisposition::MessageHandled ==> read_step(
                old(self)@.connections[token],
                ev@,
            ).1 matches ReadOutcomeModel::Message(_) || read_step(
                old(self)@.connections[token],
                ev@,
            ).1 is InvalidUtf8,
    {
        let idx = token - FIRST_CLIENT_TOKEN;
        let ghost pre_seq = self.connections@;
        let outcome = match &mut self.connections[idx] {
            Some(conn) => {
                proof {
                    assert(slot_inv(pre_seq[idx as int]));
                }
                conn.read(ev)
            },
            None => {
                proof {
                    assert(false);
                }
                ReadOutcome::NeedMore
            },
        };
        proof {
            let o2 = self.connections@[idx as int];
            assert(self.connections@ == pre_seq.update(idx as int, o2));
            assert(o2 is Some);
            lemma_conns_map_mutate_slot(pre_seq, idx as int, o2);
            assert(self@.connections =~= old(self)@.connections.insert(
                token,
                read_step(old(self)@.connections[token], ev@).0,
            ));
            assert(self@.connections.dom() =~= old(self)@.connections.dom());
            assert forall|k: int| 0 <= k < self.connections@.len() implies slot_inv(
                #[trigger] self.connections@[k],
            ) by {
                if k != idx as int {
                    assert(self.connections@[k] == pre_seq[k]);
                }
            }
            assert forall|u: usize| #[trigger] self@.app.users.dom().contains(
                u,
            ) implies self@.connections.dom().contains(u) by {}
        }
        let progressed: bool = match outcome {
            ReadOutcome::Message(line) => {
                self.handle_message_read_from_client(token, line);
                true
            },
            ReadOutcome::InvalidUtf8 => {
                self.enqueue_bytes(token, invalid_utf8_vec());
                true
            },
            ReadOutcome::NeedMore => false,
            ReadOutcome::Disconnected => false,
            ReadOutcome::IoError => false,
        };
        let ghost s_mid = self@;
        let closed = match &self.connections[idx] {
            Some(c) => c.is_closed(),
            None => {
                proof {
                    assert(false);
                }
                false
            },
        };
        proof {
            assert(closed == (s_mid.connections[token].state == ChatConnectionState::Closed));
        }
        if closed {
            self.reset_connection(token);
            proof {
                assert(final(self)@ == settle_spec(s_mid, token));
            }
            ReadDisposition::Removed
        } else {
            proof {
                assert(settle_spec(s_mid, token) == s_mid);
            }
            if progressed {
                ReadDisposition::MessageHandled
            } else {
                ReadDisposition::Idle
            }
        }
    }

    /// The buffer the next write for this connection should carry, if
    /// anything is queued.
    pub fn outgoing_head(&self, token: usize) -> (r: Option<Rc<Vec<u8>>>)
        requires
            self@.connections.dom().contains(token),
        ensures
            match r {
                Some(m) => self@.connections[token].send_queue.len() > 0 && m@
                    == self@.connections[token].send_queue[0],
                None => self@.connections[token].send_queue.len() == 0,
            },
    {
        let idx = token - FIRST_CLIENT_TOKEN;
        match &self.connections[idx] {
            Some(c) => c.head_message(),
            None => {
                proof {
                    assert(false);
                }
                None
            },
        }
    }

    /// Handle the result of writing the head buffer of a connection's
    /// queue, and reset the connection if the failure limit closed it.
    /// Returns whether the connection was removed.
    pub fn write(&mut self, token: usize, ev: WriteEvent) -> (r: bool)
        requires
            old(self).inv(),
            old(self)@.connections.dom().contains(token),
            old(self)@.connections[token].send_queue.len() > 0,
        ensures
            final(self).inv(),
            final(self)@ == settle_spec(
                ServerModel {
                    connections: old(self)@.connections.insert(
                        token,
                        write_step(old(self)@.connections[token], ev),
                    ),
                    app: old(self)@.app,
                },
                token,
            ),
            r <==> !final(self)@.connections.dom().contains(token),
    {
        let idx = token - FIRST_CLIENT_TOKEN;
        let ghost pre_seq = self.connections@;
        match &mut self.connections[idx] {
            Some(conn) => conn.write(ev),
            None => {
                proof {
                    assert(false);
                }
            },
        }
        proof {
            let o2 = self.connections@[idx as int];
            assert(self.connections@ == pre_seq.update(idx as int, o2));
            assert(o2 is Some);
            lemma_conns_map_mutate_slot(pre_seq, idx as int, o2);
            assert(self@.connections =~= old(self)@.connections.insert(
                token,
                write_step(old(self)@.connections[token], ev),
            ));
            assert(self@.connections.dom() =~= old(self)@.connections.dom());
            assert forall|k: int| 0 <= k < self.connections@.len() implies slot_inv(
                #[trigger] self.connections@[k],
            ) by {
                if k != idx as int {
                    assert(self.connections@[k] == pre_seq[k]);
                } else {
                    assert(slot_conn(o2).read_buf == slot_conn(pre_seq[k]).read_buf);
                }
            }
            assert forall|u: usize| #[trigger] self@.app.users.dom().contains(
                u,
            ) implies self@.connections.dom().contains(u) by {}
        }
        let ghost s_mid = self@;
        let closed = match &self.connections[idx] {
            Some(c) => c.is_closed(),
            None => {
                proof {
                    assert(false);
                }
                false
            },
        };
        if closed {
            self.reset_connection(token);
            proof {
                assert(final(self)@ == settle_spec(s_mid, token));
            }
            true
        } else {
            proof {
                assert(settle_spec(s_mid, token) == s_mid);
            }
            false
        }
    }

    /// A writable event found nothing queued: stop watching for
    /// writability, and reset the connection if it stands closed.
    /// Returns whether the connection was removed.
    pub fn write_idle(&mut self, token: usize) -> (r: bool)
        requires
            old(self).inv(),
            old(self)@.connections.dom().contains(token),
            old(self)@.connections[token].send_queue.len() == 0,
        ensures
            final(self).inv(),
            final(self)@ == settle_spec(
                ServerModel {
                    connections: old(self)@.connections.insert(
                        token,
                        ConnModel {
                            interest_writable: false,
                            ..old(self)@.connections[token]
                        },
                    ),
                    app: old(self)@.app,
                },
                token,
            ),
            r <==> !final(self)@.connections.dom().contains(token),
    {
        let idx = token - FIRST_CLIENT_TOKEN;
        let ghost pre_seq = self.connections@;
        match &mut self.connections[idx] {
            Some(conn) => conn.write_idle(),
            None => {
                proof {
                    assert(false);
                }
            },
        }
        proof {
            let o2 = self.connections@[idx as int];
            assert(self.connections@ == pre_seq.update(idx as int, o2));
            assert(o2 is Some);
            lemma_conns_map_mutate_slot(pre_seq, idx as int, o2);
            assert(self@.connections =~= old(self)@.connections.insert(
                token,
                ConnModel { interest_writable: false, ..old(self)@.connections[token] },
            ));
            assert(self@.connections.dom() =~= old(self)@.connections.dom());
            assert forall|k: int| 0 <= k < self.connections@.len() implies slot_inv(
                #[trigger] self.connections@[k],
            ) by {
                if k != idx as int {
                    assert(self.connections@[k] == pre_seq[k]);
                } else {
                    assert(slot_conn(o2).read_buf == slot_conn(pre_seq[k]).read_buf);
                }
            }
            assert forall|u: usize| #[trigger] self@.app.users.dom().contains(
                u,
            ) implies self@.connections.dom().contains(u) by {}
        }
        let ghost s_mid = self@;
        let closed = match &self.connections[idx] {
            Some(c) => c.is_closed(),
            None => {
                proof {
                    assert(false);
                }
                false
            },
        };
        if closed {
            self.reset_connection(token);
            proof {
                assert(final(self)@ == settle_spec(s_mid, token));
            }
            true
        } else {
            proof {
                assert(settle_spec(s_mid, token) == s_mid);
            }
            false
        }
    }

    /// The name registered for this token, if any.
    pub fn get_username(&self, token: usize) -> (r: Option<String>)
        requires
            self.inv(),
        ensures
            match r {
                Some(name) => self@.app.users.dom().contains(token) && name@
                    == self@.app.users[token].name,
                None => !self@.app.users.dom().contains(token),
            },
    {
        self.app.get_username(token)
    }

    /// The lowest empty slot of the table, if any.
    fn find_free_slot(&self) -> (r: Option<usize>)
        ensures
            match r {
                Some(i) => i < self.connections@.len() && self.connections@[i as int] is None,
                None => forall|k: int|
                    0 <= k < self.connections@.len() ==> self.connections@[k] is Some,
            },
    {
        let n = self.connections.len();
        let mut i: usize = 0;
        while i < n
            invariant
                i <= n,
                n == self.connections@.len(),
                forall|k: int| 0 <= k < i ==> self.connections@[k] is Some,
            decreases n - i,
        {
            if self.connections[i].is_none() {
                return Some(i);
            }
            i = i + 1;
        }
        None
    }

    /// Tear a connection down: deregister it from the table and forget
    /// its user, if it had one.
    pub fn reset_connection(&mut self, token: usize)
        requires
            old(self).inv(),
            old(self)@.connections.dom().contains(token),
        ensures
            final(self).inv(),
            final(self)@ == reset_spec(old(self)@, token),
            final(self)@.app.wf(),
    {
        let idx = token - FIRST_CLIENT_TOKEN;
        let slot = &mut self.connections[idx];
        *slot = None;
        proof {
            assert(self.connections@ == old(self).connections@.update(
                idx as int,
                Option::<ChatConnection>::None,
            ));
            lemma_conns_map_clear_slot(old(self).connections@, idx as int);
        }
        self.app.remove_user(token);
        proof {
            assert(self@.connections =~= old(self)@.connections.remove(token));
            assert(self@ =~= reset_spec(old(self)@, token));
            assert forall|t: usize| #[trigger] self@.app.users.dom().contains(
                t,
            ) implies self@.connections.dom().contains(t) by {
                assert(old(self)@.app.users.dom().contains(t) && t != token);
            }
        }
    }
}

/// The greeting as a byte buffer.
fn greeting_vec() -> (v: Vec<u8>)
    ensures
        v@ == greeting_bytes(),
{
    vstd::slice::slice_to_vec("Server: Select a username:\n".as_bytes())
}

fn authorized_vec() -> (v: Vec<u8>)
    ensures
        v@ == authorized_bytes(),
{
    vstd::slice::slice_to_vec("Server: you have been successfully authorized\n".as_bytes())
}

fn name_taken_vec() -> (v: Vec<u8>)
    ensures
        v@ == name_taken_bytes(),
{
    vstd::slice::slice_to_vec("Server: That username is taken, please try another\n".as_bytes())
}

fn invalid_utf8_vec() -> (v: Vec<u8>)
    ensures
        v@ == invalid_utf8_bytes(),
{
    vstd::slice::slice_to_vec("Server: Invalid utf8, message was discarded.\n".as_bytes())
}

fn invalid_command_vec() -> (v: Vec<u8>)
    ensures
        v@ == invalid_command_bytes(),
{
    vstd::slice::slice_to_vec("Not a valid command\n".as_bytes())
}

} // verus!
