//! The in-memory authoritative chat state: users, rooms, and the name
//! index, with the invariants that tie the three together.
//!
//! Every user's token is in the member list of exactly the room the user
//! is in; the name index maps each registered name to its one owning
//! token; the room named `default` always exists. Each operation states
//! its whole effect against a mathematical model of maps and sets.

use vstd::prelude::*;

use crate::room::ChatRoom;
use crate::user::ChatUser;

verus! {

/// The mathematical value of one registered user.
pub struct UserModel {
    pub name: Seq<char>,
    pub room: Seq<char>,
}

/// The mathematical value of the chat state: the user table, the name
/// index, and the member sets of the rooms.
#[verifier::ext_equal]
pub struct AppModel {
    pub users: Map<usize, UserModel>,
    pub names: Map<Seq<char>, usize>,
    pub rooms: Map<Seq<char>, Set<usize>>,
}

impl AppModel {
    /// The global invariants: every user's name is indexed back to the
    /// user's token and the user's token is a member of the user's room;
    /// the name index points only at users carrying that name; room
    /// members are exactly the users located there; `default` exists.
    pub open spec fn wf(self) -> bool {
        &&& self.rooms.dom().contains("default"@)
        &&& forall|t: usize| #[trigger]
            self.users.dom().contains(t) ==> self.names.dom().contains(self.users[t].name)
                && self.names[self.users[t].name] == t && self.rooms.dom().contains(
                self.users[t].room,
            ) && self.rooms[self.users[t].room].contains(t)
        &&& forall|n: Seq<char>| #[trigger]
            self.names.dom().contains(n) ==> self.users.dom().contains(self.names[n])
                && self.users[self.names[n]].name == n
        &&& forall|r: Seq<char>, t: usize|
            self.rooms.dom().contains(r) && #[trigger] self.rooms[r].contains(t)
                ==> self.users.dom().contains(t) && self.users[t].room == r
    }

    /// The state a freshly started server holds: nobody registered, the
    /// `default` room empty.
    pub open spec fn init() -> AppModel {
        AppModel {
            users: Map::empty(),
            names: Map::empty(),
            rooms: Map::empty().insert("default"@, Set::empty()),
        }
    }
}

/// Whether `register_user` succeeds: the token is free and the name is
/// unclaimed.
pub open spec fn register_ok(m: AppModel, t: usize, name: Seq<char>) -> bool {
    !m.users.dom().contains(t) && !m.names.dom().contains(name)
}

/// The state after a successful registration: the user exists, named and
/// placed in `default`, and both indices know it.
pub open spec fn register_model(m: AppModel, t: usize, name: Seq<char>) -> AppModel {
    AppModel {
        users: m.users.insert(t, UserModel { name, room: "default"@ }),
        names: m.names.insert(name, t),
        rooms: m.rooms.insert("default"@, m.rooms["default"@].insert(t)),
    }
}

/// The state after moving user `t` to room `dest`, creating it if absent.
pub open spec fn move_model(m: AppModel, t: usize, dest: Seq<char>) -> AppModel
    recommends
        m.users.dom().contains(t),
{
    let cur = m.users[t].room;
    let grown = if m.rooms.dom().contains(dest) {
        m.rooms
    } else {
        m.rooms.insert(dest, Set::empty())
    };
    let left = grown.insert(cur, grown[cur].remove(t));
    AppModel {
        users: m.users.insert(t, UserModel { name: m.users[t].name, room: dest }),
        names: m.names,
        rooms: left.insert(dest, left[dest].insert(t)),
    }
}

/// The state after removing user `t`: unchanged when `t` is not
/// registered, else the user, its name, and its membership are gone.
/// Rooms are never deleted, however empty.
pub open spec fn remove_model(m: AppModel, t: usize) -> AppModel {
    if m.users.dom().contains(t) {
        AppModel {
            users: m.users.remove(t),
            names: m.names.remove(m.users[t].name),
            rooms: m.rooms.insert(m.users[t].room, m.rooms[m.users[t].room].remove(t)),
        }
    } else {
        m
    }
}

/// Who receives a message sent by `t`: everyone in `t`'s room but `t`.
pub open spec fn recipients_model(m: AppModel, t: usize) -> Set<usize>
    recommends
        m.users.dom().contains(t),
{
    m.rooms[m.users[t].room].remove(t)
}

/// The initial state satisfies the global invariants.
pub proof fn lemma_init_wf()
    ensures
        AppModel::init().wf(),
{
}

/// A successful registration preserves the global invariants: the name
/// index still points every user's name at its token, and every user
/// still sits in its room.
pub proof fn lemma_register_preserves_wf(m: AppModel, t: usize, name: Seq<char>)
    requires
        m.wf(),
        register_ok(m, t, name),
    ensures
        register_model(m, t, name).wf(),
{
    let m2 = register_model(m, t, name);
    assert forall|t2: usize| #[trigger] m2.users.dom().contains(t2) implies m2.names.dom().contains(
        m2.users[t2].name,
    ) && m2.names[m2.users[t2].name] == t2 && m2.rooms.dom().contains(m2.users[t2].room)
        && m2.rooms[m2.users[t2].room].contains(t2) by {
        if t2 != t {
            assert(m.users.dom().contains(t2));
            assert(m.users[t2].name != name);
        }
    }
    assert forall|n: Seq<char>| #[trigger] m2.names.dom().contains(n) implies m2.users.dom(
    ).contains(m2.names[n]) && m2.users[m2.names[n]].name == n by {
        if n != name {
            assert(m.names.dom().contains(n));
            assert(m.names[n] != t);
        }
    }
    assert forall|r: Seq<char>, t2: usize|
        m2.rooms.dom().contains(r) && #[trigger] m2.rooms[r].contains(t2) implies m2.users.dom(
    ).contains(t2) && m2.users[t2].room == r by {
        if r == "default"@ {
            if t2 != t {
                assert(m.rooms["default"@].contains(t2));
            }
        } else {
            assert(m.rooms.dom().contains(r) && m.rooms[r].contains(t2));
            assert(t2 != t);
        }
    }
}

/// Moving a registered user preserves the global invariants.
pub proof fn lemma_move_preserves_wf(m: AppModel, t: usize, dest: Seq<char>)
    requires
        m.wf(),
        m.users.dom().contains(t),
    ensures
        move_model(m, t, dest).wf(),
{
    let m2 = move_model(m, t, dest);
    let cur = m.users[t].room;
    assert forall|t2: usize| #[trigger] m2.users.dom().contains(t2) implies m2.names.dom().contains(
        m2.users[t2].name,
    ) && m2.names[m2.users[t2].name] == t2 && m2.rooms.dom().contains(m2.users[t2].room)
        && m2.rooms[m2.users[t2].room].contains(t2) by {
        if t2 == t {
            assert(m2.rooms[dest].contains(t));
        } else {
            assert(m.users.dom().contains(t2));
            let r2 = m.users[t2].room;
            assert(m.rooms[r2].contains(t2));
            assert(m2.rooms.dom().contains(r2));
            assert(m2.rooms[r2].contains(t2));
        }
    }
    assert forall|n: Seq<char>| #[trigger] m2.names.dom().contains(n) implies m2.users.dom(
    ).contains(m2.names[n]) && m2.users[m2.names[n]].name == n by {
        assert(m.names.dom().contains(n));
    }
    assert forall|r: Seq<char>, t2: usize|
        m2.rooms.dom().contains(r) && #[trigger] m2.rooms[r].contains(t2) implies m2.users.dom(
    ).contains(t2) && m2.users[t2].room == r by {
        if t2 == t {
            assert(r == dest);
        } else {
            if r == dest {
                if m.rooms.dom().contains(dest) {
                    assert(m.rooms[dest].contains(t2));
                } else {
                    assert(false);
                }
            } else {
                assert(m.rooms.dom().contains(r) && m.rooms[r].contains(t2));
            }
        }
    }
}

/// Removing a user preserves the global invariants; no other user, name,
/// or membership is touched.
pub proof fn lemma_remove_preserves_wf(m: AppModel, t: usize)
    requires
        m.wf(),
    ensures
        remove_model(m, t).wf(),
{
    let m2 = remove_model(m, t);
    if m.users.dom().contains(t) {
        let name = m.users[t].name;
        let cur = m.users[t].room;
        assert forall|t2: usize| #[trigger] m2.users.dom().contains(t2) implies m2.names.dom(
        ).contains(m2.users[t2].name) && m2.names[m2.users[t2].name] == t2 && m2.rooms.dom(
        ).contains(m2.users[t2].room) && m2.rooms[m2.users[t2].room].contains(t2) by {
            assert(m.users.dom().contains(t2) && t2 != t);
            assert(m.users[t2].name != name) by {
                if m.users[t2].name == name {
                    assert(m.names[name] == t2);
                    assert(m.names[name] == t);
                }
            }
            assert(m.rooms[m.users[t2].room].contains(t2));
        }
        assert forall|n: Seq<char>| #[trigger] m2.names.dom().contains(n) implies m2.users.dom(
        ).contains(m2.names[n]) && m2.users[m2.names[n]].name == n by {
            assert(m.names.dom().contains(n) && n != name);
            assert(m.names[n] != t) by {
                if m.names[n] == t {
                    assert(m.users[t].name == n);
                }
            }
        }
        assert forall|r: Seq<char>, t2: usize|
            m2.rooms.dom().contains(r) && #[trigger] m2.rooms[r].contains(t2) implies m2.users.dom(
        ).contains(t2) && m2.users[t2].room == r by {
            if r == cur {
                assert(m.rooms[cur].contains(t2) && t2 != t);
            } else {
                assert(m.rooms.dom().contains(r) && m.rooms[r].contains(t2));
                assert(t2 != t);
            }
        }
    }
}

/// Names are unique: the index admits one token per name, so two
/// registered users carrying the same name are the same user.
pub proof fn lemma_names_unique(m: AppModel, t1: usize, t2: usize)
    requires
        m.wf(),
        m.users.dom().contains(t1),
        m.users.dom().contains(t2),
        m.users[t1].name == m.users[t2].name,
    ensures
        t1 == t2,
{
    assert(m.names[m.users[t1].name] == t1);
    assert(m.names[m.users[t2].name] == t2);
}

/// Once one token has claimed a name, a claim of the same name by any
/// other unregistered token finds the name taken.
pub proof fn lemma_register_name_collision(m: AppModel, t1: usize, t2: usize, name: Seq<char>)
    requires
        m.wf(),
        register_ok(m, t1, name),
        t2 != t1,
        !m.users.dom().contains(t2),
    ensures
        register_model(m, t1, name).names.dom().contains(name),
        !register_model(m, t1, name).users.dom().contains(t2),
        !register_ok(register_model(m, t1, name), t2, name),
{
}

/// Removing a user frees its name: a later claim of that name by a token
/// that is not registered afterwards succeeds.
pub proof fn lemma_register_after_remove(m: AppModel, t: usize, t2: usize)
    requires
        m.wf(),
        m.users.dom().contains(t),
        t2 == t || !m.users.dom().contains(t2),
    ensures
        register_ok(remove_model(m, t), t2, m.users[t].name),
{
    let name = m.users[t].name;
    assert(m.names[name] == t);
}

/// After a user moves to a room, a recipient snapshot taken by anyone in
/// that room includes the mover exactly when the two differ.
pub proof fn lemma_move_then_recipients(m: AppModel, t: usize, dest: Seq<char>, t2: usize)
    requires
        m.wf(),
        m.users.dom().contains(t),
        move_model(m, t, dest).users.dom().contains(t2),
        move_model(m, t, dest).users[t2].room == dest,
    ensures
        recipients_model(move_model(m, t, dest), t2).contains(t) <==> t2 != t,
{
    let m2 = move_model(m, t, dest);
    assert(m2.rooms[dest].contains(t));
}

/// Moving to the room one is already in changes nothing.
pub proof fn lemma_move_idempotent(m: AppModel, t: usize)
    requires
        m.wf(),
        m.users.dom().contains(t),
    ensures
        move_model(m, t, m.users[t].room) == m,
{
    let dest = m.users[t].room;
    let m2 = move_model(m, t, dest);
    assert(m.users.insert(t, UserModel { name: m.users[t].name, room: dest }) =~= m.users);
    assert(m.rooms.dom().contains(dest));
    assert(m.rooms[dest].contains(t));
    assert(m.rooms[dest].remove(t).insert(t) =~= m.rooms[dest]);
    assert(m2.rooms =~= m.rooms);
    assert(m2 =~= m);
}

/// Some user in the table carries this token.
pub open spec fn has_token(s: Seq<ChatUser>, t: usize) -> bool {
    exists|i: int| 0 <= i < s.len() && s[i].id == t
}

/// The index of the user carrying this token.
pub open spec fn token_idx(s: Seq<ChatUser>, t: usize) -> int {
    choose|i: int| 0 <= i < s.len() && s[i].id == t
}

/// Some room in the table carries this name.
pub open spec fn has_room(s: Seq<ChatRoom>, n: Seq<char>) -> bool {
    exists|i: int| 0 <= i < s.len() && s[i].name@ == n
}

/// The index of the room carrying this name.
pub open spec fn room_idx(s: Seq<ChatRoom>, n: Seq<char>) -> int {
    choose|i: int| 0 <= i < s.len() && s[i].name@ == n
}

/// Some entry of the name index carries this name.
pub open spec fn has_name(s: Seq<(String, usize)>, n: Seq<char>) -> bool {
    exists|i: int| 0 <= i < s.len() && s[i].0@ == n
}

/// The index of the entry carrying this name.
pub open spec fn name_idx(s: Seq<(String, usize)>, n: Seq<char>) -> int {
    choose|i: int| 0 <= i < s.len() && s[i].0@ == n
}

/// The user table as a map from token to user value.
pub open spec fn users_map(s: Seq<ChatUser>) -> Map<usize, UserModel> {
    Map::new(
        |t: usize| has_token(s, t),
        |t: usize|
            UserModel {
                name: s[token_idx(s, t)].user_name@,
                room: s[token_idx(s, t)].location@,
            },
    )
}

/// The room table as a map from room name to member set.
pub open spec fn rooms_map(s: Seq<ChatRoom>) -> Map<Seq<char>, Set<usize>> {
    Map::new(|n: Seq<char>| has_room(s, n), |n: Seq<char>| s[room_idx(s, n)].members@.to_set())
}

/// The name index as a map from name to token.
pub open spec fn names_map(s: Seq<(String, usize)>) -> Map<Seq<char>, usize> {
    Map::new(|n: Seq<char>| has_name(s, n), |n: Seq<char>| s[name_idx(s, n)].1)
}

/// No two users carry the same token.
pub open spec fn tokens_unique(s: Seq<ChatUser>) -> bool {
    forall|i: int, j: int| 0 <= i < j < s.len() ==> s[i].id != s[j].id
}

/// No two rooms carry the same name.
pub open spec fn room_names_unique(s: Seq<ChatRoom>) -> bool {
    forall|i: int, j: int| 0 <= i < j < s.len() ==> s[i].name@ != s[j].name@
}

/// No two entries of the name index carry the same name.
pub open spec fn index_names_unique(s: Seq<(String, usize)>) -> bool {
    forall|i: int, j: int| 0 <= i < j < s.len() ==> s[i].0@ != s[j].0@
}

/// No member token repeats within one room.
pub open spec fn members_unique(s: Seq<usize>) -> bool {
    forall|i: int, j: int| 0 <= i < j < s.len() ==> s[i] != s[j]
}

proof fn lemma_token_idx_of(s: Seq<ChatUser>, i: int)
    requires
        tokens_unique(s),
        0 <= i < s.len(),
    ensures
        has_token(s, s[i].id),
        token_idx(s, s[i].id) == i,
{
    assert(has_token(s, s[i].id));
    let j = token_idx(s, s[i].id);
    assert(0 <= j < s.len() && s[j].id == s[i].id);
    if j < i {
        assert(s[j].id != s[i].id);
    } else if i < j {
        assert(s[i].id != s[j].id);
    }
}

proof fn lemma_room_idx_of(s: Seq<ChatRoom>, i: int)
    requires
        room_names_unique(s),
        0 <= i < s.len(),
    ensures
        has_room(s, s[i].name@),
        room_idx(s, s[i].name@) == i,
{
    assert(has_room(s, s[i].name@));
    let j = room_idx(s, s[i].name@);
    assert(0 <= j < s.len() && s[j].name@ == s[i].name@);
    if j < i {
        assert(s[j].name@ != s[i].name@);
    } else if i < j {
        assert(s[i].name@ != s[j].name@);
    }
}

proof fn lemma_name_idx_of(s: Seq<(String, usize)>, i: int)
    requires
        index_names_unique(s),
        0 <= i < s.len(),
    ensures
        has_name(s, s[i].0@),
        name_idx(s, s[i].0@) == i,
{
    assert(has_name(s, s[i].0@));
    let j = name_idx(s, s[i].0@);
    assert(0 <= j < s.len() && s[j].0@ == s[i].0@);
    if j < i {
        assert(s[j].0@ != s[i].0@);
    } else if i < j {
        assert(s[i].0@ != s[j].0@);
    }
}

pub(crate) proof fn lemma_to_set_push(s: Seq<usize>, x: usize)
    ensures
        s.push(x).to_set() == s.to_set().insert(x),
{
    let s2 = s.push(x);
    assert forall|t: usize| s2.to_set().contains(t) implies s.to_set().insert(x).contains(t) by {
        let i = choose|i: int| 0 <= i < s2.len() && s2[i] == t;
        if i < s.len() {
            assert(s[i] == t);
        }
    }
    assert forall|t: usize| s.to_set().insert(x).contains(t) implies s2.to_set().contains(t) by {
        if t == x {
            assert(s2[s.len() as int] == x);
        } else {
            let i = choose|i: int| 0 <= i < s.len() && s[i] == t;
            assert(s2[i] == t);
        }
    }
    assert(s2.to_set() =~= s.to_set().insert(x));
}

proof fn lemma_to_set_remove_at(s: Seq<usize>, i: int)
    requires
        members_unique(s),
        0 <= i < s.len(),
    ensures
        s.remove(i).to_set() == s.to_set().remove(s[i]),
{
    let s2 = s.remove(i);
    assert forall|t: usize| s2.to_set().contains(t) implies s.to_set().remove(s[i]).contains(
        t,
    ) by {
        let j = choose|j: int| 0 <= j < s2.len() && s2[j] == t;
        if j < i {
            assert(s[j] == t);
            assert(s[j] != s[i]);
        } else {
            assert(s[j + 1] == t);
            assert(s[j + 1] != s[i]);
        }
    }
    assert forall|t: usize| s.to_set().remove(s[i]).contains(t) implies s2.to_set().contains(
        t,
    ) by {
        let j = choose|j: int| 0 <= j < s.len() && s[j] == t;
        assert(j != i);
        if j < i {
            assert(s2[j] == t);
        } else {
            assert(s2[j - 1] == t);
        }
    }
    assert(s2.to_set() =~= s.to_set().remove(s[i]));
}

/// Appending a user with a fresh token inserts it into the map view.
proof fn lemma_users_map_push(s: Seq<ChatUser>, u: ChatUser)
    requires
        tokens_unique(s),
        !has_token(s, u.id),
    ensures
        users_map(s.push(u)) == users_map(s).insert(
            u.id,
            UserModel { name: u.user_name@, room: u.location@ },
        ),
        tokens_unique(s.push(u)),
{
    let s2 = s.push(u);
    assert forall|i: int, j: int| 0 <= i < j < s2.len() implies s2[i].id != s2[j].id by {
        if j < s.len() {
            assert(s[i].id != s[j].id);
        } else {
            assert(s2[j] == u);
            if s2[i].id == u.id {
                assert(has_token(s, u.id));
            }
        }
    }
    assert forall|t: usize| #[trigger]
        users_map(s2).dom().contains(t) <==> users_map(s).insert(
            u.id,
            UserModel { name: u.user_name@, room: u.location@ },
        ).dom().contains(t) by {
        if t == u.id {
            assert(s2[s.len() as int].id == t);
            assert(has_token(s2, t));
        }
        if has_token(s2, t) && t != u.id {
            let i = token_idx(s2, t);
            assert(0 <= i < s2.len() && s2[i].id == t);
            assert(i < s.len());
            assert(s[i].id == t);
            assert(has_token(s, t));
        }
        if has_token(s, t) {
            let i = token_idx(s, t);
            assert(s2[i].id == t);
            assert(has_token(s2, t));
        }
    }
    assert forall|t: usize| #[trigger] users_map(s2).dom().contains(t) implies users_map(s2)[t]
        == users_map(s).insert(u.id, UserModel { name: u.user_name@, room: u.location@ })[t] by {
        if t == u.id {
            lemma_token_idx_of(s2, s.len() as int);
        } else {
            let i = token_idx(s2, t);
            assert(0 <= i < s2.len() && s2[i].id == t);
            assert(i < s.len());
            assert(s[i].id == t);
            lemma_token_idx_of(s2, i);
            lemma_token_idx_of(s, i);
        }
    }
    assert(users_map(s2) =~= users_map(s).insert(
        u.id,
        UserModel { name: u.user_name@, room: u.location@ },
    ));
}

/// Removing a user deletes its token from the map view.
proof fn lemma_users_map_remove(s: Seq<ChatUser>, i: int)
    requires
        tokens_unique(s),
        0 <= i < s.len(),
    ensures
        users_map(s.remove(i)) == users_map(s).remove(s[i].id),
        tokens_unique(s.remove(i)),
{
    let s2 = s.remove(i);
    assert forall|a: int, b: int| 0 <= a < b < s2.len() implies s2[a].id != s2[b].id by {
        let a0 = if a < i {
            a
        } else {
            a + 1
        };
        let b0 = if b < i {
            b
        } else {
            b + 1
        };
        assert(s2[a] == s[a0] && s2[b] == s[b0]);
        assert(s[a0].id != s[b0].id);
    }
    assert forall|t: usize|
        #![trigger users_map(s2).dom().contains(t)]
        has_token(s2, t) <==> (has_token(s, t) && t != s[i].id) by {
        if has_token(s2, t) {
            let j = token_idx(s2, t);
            let j0 = if j < i {
                j
            } else {
                j + 1
            };
            assert(s2[j] == s[j0]);
            assert(s[j0].id == t);
            assert(has_token(s, t));
            if j0 != i {
                assert(s[j0].id != s[i].id);
            }
        }
        if has_token(s, t) && t != s[i].id {
            let j = token_idx(s, t);
            assert(0 <= j < s.len() && s[j].id == t);
            assert(j != i);
            if j < i {
                assert(s2[j] == s[j]);
                assert(has_token(s2, t));
            } else {
                assert(s2[j - 1] == s[j]);
                assert(has_token(s2, t));
            }
        }
    }
    assert forall|t: usize| #[trigger] users_map(s2).dom().contains(t) implies users_map(s2)[t]
        == users_map(s)[t] by {
        let j = token_idx(s2, t);
        assert(0 <= j < s2.len() && s2[j].id == t);
        let j0 = if j < i {
            j
        } else {
            j + 1
        };
        assert(s2[j] == s[j0]);
        lemma_token_idx_of(s2, j);
        lemma_token_idx_of(s, j0);
    }
    assert(users_map(s2) =~= users_map(s).remove(s[i].id));
}

/// Rewriting one user in place, token kept, updates its value in the map
/// view.
proof fn lemma_users_map_update(s: Seq<ChatUser>, i: int, u: ChatUser)
    requires
        tokens_unique(s),
        0 <= i < s.len(),
        u.id == s[i].id,
    ensures
        users_map(s.update(i, u)) == users_map(s).insert(
            u.id,
            UserModel { name: u.user_name@, room: u.location@ },
        ),
        tokens_unique(s.update(i, u)),
{
    let s2 = s.update(i, u);
    assert forall|a: int, b: int| 0 <= a < b < s2.len() implies s2[a].id != s2[b].id by {
        assert(s[a].id != s[b].id);
    }
    assert forall|t: usize|
        #![trigger users_map(s2).dom().contains(t)]
        has_token(s2, t) <==> has_token(s, t) by {
        if has_token(s2, t) {
            let j = token_idx(s2, t);
            assert(s[j].id == s2[j].id);
            assert(has_token(s, t));
        }
        if has_token(s, t) {
            let j = token_idx(s, t);
            assert(s2[j].id == s[j].id);
            assert(has_token(s2, t));
        }
    }
    assert forall|t: usize| #[trigger] users_map(s2).dom().contains(t) implies users_map(s2)[t]
        == users_map(s).insert(u.id, UserModel { name: u.user_name@, room: u.location@ })[t] by {
        let j = token_idx(s2, t);
        assert(0 <= j < s2.len() && s2[j].id == t);
        lemma_token_idx_of(s2, j);
        if t == u.id {
            lemma_token_idx_of(s, i);
            assert(j == i);
        } else {
            assert(j != i);
            assert(s2[j] == s[j]);
            lemma_token_idx_of(s, j);
        }
    }
    assert(users_map(s2) =~= users_map(s).insert(
        u.id,
        UserModel { name: u.user_name@, room: u.location@ },
    ));
}

/// Appending a room with a fresh name inserts its member set into the map
/// view.
proof fn lemma_rooms_map_push(s: Seq<ChatRoom>, r: ChatRoom)
    requires
        room_names_unique(s),
        !has_room(s, r.name@),
    ensures
        rooms_map(s.push(r)) == rooms_map(s).insert(r.name@, r.members@.to_set()),
        room_names_unique(s.push(r)),
{
    let s2 = s.push(r);
    assert forall|i: int, j: int| 0 <= i < j < s2.len() implies s2[i].name@ != s2[j].name@ by {
        if j < s.len() {
            assert(s[i].name@ != s[j].name@);
        } else {
            assert(s2[j] == r);
            if s2[i].name@ == r.name@ {
                assert(has_room(s, r.name@));
            }
        }
    }
    assert forall|n: Seq<char>| #[trigger]
        rooms_map(s2).dom().contains(n) <==> rooms_map(s).insert(
            r.name@,
            r.members@.to_set(),
        ).dom().contains(n) by {
        if n == r.name@ {
            assert(s2[s.len() as int].name@ == n);
            assert(has_room(s2, n));
        }
        if has_room(s2, n) && n != r.name@ {
            let i = room_idx(s2, n);
            assert(0 <= i < s2.len() && s2[i].name@ == n);
            assert(i < s.len());
            assert(s[i].name@ == n);
            assert(has_room(s, n));
        }
        if has_room(s, n) {
            let i = room_idx(s, n);
            assert(s2[i].name@ == n);
            assert(has_room(s2, n));
        }
    }
    assert forall|n: Seq<char>| #[trigger] rooms_map(s2).dom().contains(n) implies rooms_map(
        s2,
    )[n] == rooms_map(s).insert(r.name@, r.members@.to_set())[n] by {
        if n == r.name@ {
            lemma_room_idx_of(s2, s.len() as int);
        } else {
            let i = room_idx(s2, n);
            assert(0 <= i < s2.len() && s2[i].name@ == n);
            assert(i < s.len());
            assert(s[i].name@ == n);
            lemma_room_idx_of(s2, i);
            lemma_room_idx_of(s, i);
        }
    }
    assert(rooms_map(s2) =~= rooms_map(s).insert(r.name@, r.members@.to_set()));
}

/// Rewriting one room in place, name kept, updates its member set in the
/// map view.
proof fn lemma_rooms_map_update(s: Seq<ChatRoom>, i: int, r: ChatRoom)
    requires
        room_names_unique(s),
        0 <= i < s.len(),
        r.name@ == s[i].name@,
    ensures
        rooms_map(s.update(i, r)) == rooms_map(s).insert(r.name@, r.members@.to_set()),
        room_names_unique(s.update(i, r)),
{
    let s2 = s.update(i, r);
    assert forall|a: int, b: int| 0 <= a < b < s2.len() implies s2[a].name@ != s2[b].name@ by {
        assert(s[a].name@ != s[b].name@);
    }
    assert forall|n: Seq<char>|
        #![trigger rooms_map(s2).dom().contains(n)]
        has_room(s2, n) <==> has_room(s, n) by {
        if has_room(s2, n) {
            let j = room_idx(s2, n);
            assert(s[j].name@ == s2[j].name@);
            assert(has_room(s, n));
        }
        if has_room(s, n) {
            let j = room_idx(s, n);
            assert(s2[j].name@ == s[j].name@);
            assert(has_room(s2, n));
        }
    }
    assert forall|n: Seq<char>| #[trigger] rooms_map(s2).dom().contains(n) implies rooms_map(
        s2,
    )[n] == rooms_map(s).insert(r.name@, r.members@.to_set())[n] by {
        let j = room_idx(s2, n);
        assert(0 <= j < s2.len() && s2[j].name@ == n);
        lemma_room_idx_of(s2, j);
        if n == r.name@ {
            lemma_room_idx_of(s, i);
            assert(j == i);
        } else {
            assert(j != i);
            assert(s2[j] == s[j]);
            lemma_room_idx_of(s, j);
        }
    }
    assert(rooms_map(s2) =~= rooms_map(s).insert(r.name@, r.members@.to_set()));
}

/// Appending a fresh name inserts it into the index view.
proof fn lemma_names_map_push(s: Seq<(String, usize)>, e: (String, usize))
    requires
        index_names_unique(s),
        !has_name(s, e.0@),
    ensures
        names_map(s.push(e)) == names_map(s).insert(e.0@, e.1),
        index_names_unique(s.push(e)),
{
    let s2 = s.push(e);
    assert forall|i: int, j: int| 0 <= i < j < s2.len() implies s2[i].0@ != s2[j].0@ by {
        if j < s.len() {
            assert(s[i].0@ != s[j].0@);
        } else {
            assert(s2[j] == e);
            if s2[i].0@ == e.0@ {
                assert(has_name(s, e.0@));
            }
        }
    }
    assert forall|n: Seq<char>| #[trigger]
        names_map(s2).dom().contains(n) <==> names_map(s).insert(e.0@, e.1).dom().contains(
            n,
        ) by {
        if n == e.0@ {
            assert(s2[s.len() as int].0@ == n);
            assert(has_name(s2, n));
        }
        if has_name(s2, n) && n != e.0@ {
            let i = name_idx(s2, n);
            assert(0 <= i < s2.len() && s2[i].0@ == n);
            assert(i < s.len());
            assert(s[i].0@ == n);
            assert(has_name(s, n));
        }
        if has_name(s, n) {
            let i = name_idx(s, n);
            assert(s2[i].0@ == n);
            assert(has_name(s2, n));
        }
    }
    assert forall|n: Seq<char>| #[trigger] names_map(s2).dom().contains(n) implies names_map(
        s2,
    )[n] == names_map(s).insert(e.0@, e.1)[n] by {
        if n == e.0@ {
            lemma_name_idx_of(s2, s.len() as int);
        } else {
            let i = name_idx(s2, n);
            assert(0 <= i < s2.len() && s2[i].0@ == n);
            assert(i < s.len());
            assert(s[i].0@ == n);
            lemma_name_idx_of(s2, i);
            lemma_name_idx_of(s, i);
        }
    }
    assert(names_map(s2) =~= names_map(s).insert(e.0@, e.1));
}

/// Removing an entry deletes its name from the index view.
proof fn lemma_names_map_remove(s: Seq<(String, usize)>, i: int)
    requires
        index_names_unique(s),
        0 <= i < s.len(),
    ensures
        names_map(s.remove(i)) == names_map(s).remove(s[i].0@),
        index_names_unique(s.remove(i)),
{
    let s2 = s.remove(i);
    assert forall|a: int, b: int| 0 <= a < b < s2.len() implies s2[a].0@ != s2[b].0@ by {
        let a0 = if a < i {
            a
        } else {
            a + 1
        };
        let b0 = if b < i {
            b
        } else {
            b + 1
        };
        assert(s2[a] == s[a0] && s2[b] == s[b0]);
        assert(s[a0].0@ != s[b0].0@);
    }
    assert forall|n: Seq<char>|
        #![trigger names_map(s2).dom().contains(n)]
        has_name(s2, n) <==> (has_name(s, n) && n != s[i].0@) by {
        if has_name(s2, n) {
            let j = name_idx(s2, n);
            let j0 = if j < i {
                j
            } else {
                j + 1
            };
            assert(s2[j] == s[j0]);
            assert(s[j0].0@ == n);
            assert(has_name(s, n));
            if j0 != i {
                assert(s[j0].0@ != s[i].0@);
            }
        }
        if has_name(s, n) && n != s[i].0@ {
            let j = name_idx(s, n);
            assert(0 <= j < s.len() && s[j].0@ == n);
            assert(j != i);
            if j < i {
                assert(s2[j] == s[j]);
                assert(has_name(s2, n));
            } else {
                assert(s2[j - 1] == s[j]);
                assert(has_name(s2, n));
            }
        }
    }
    assert forall|n: Seq<char>| #[trigger] names_map(s2).dom().contains(n) implies names_map(
        s2,
    )[n] == names_map(s)[n] by {
        let j = name_idx(s2, n);
        assert(0 <= j < s2.len() && s2[j].0@ == n);
        let j0 = if j < i {
            j
        } else {
            j + 1
        };
        assert(s2[j] == s[j0]);
        lemma_name_idx_of(s2, j);
        lemma_name_idx_of(s, j0);
    }
    assert(names_map(s2) =~= names_map(s).remove(s[i].0@));
}

/// The in-memory authoritative model of the chat application.
pub struct ChatApp {
    /// Connections with a registered username.
    users: Vec<ChatUser>,
    /// Rooms currently available; the first is always `default`.
    rooms: Vec<ChatRoom>,
    /// Username-to-token index, to settle claims on a name quickly and
    /// uniquely.
    user_name_lookup: Vec<(String, usize)>,
}

impl View for ChatApp {
    type V = AppModel;

    closed spec fn view(&self) -> AppModel {
        AppModel {
            users: users_map(self.users@),
            names: names_map(self.user_name_lookup@),
            rooms: rooms_map(self.rooms@),
        }
    }
}

impl ChatApp {
    /// The representation invariants behind the view: unique keys in
    /// every table, `default` first among the rooms, and the global
    /// invariants of the abstract state.
    pub closed spec fn inv(self) -> bool {
        &&& tokens_unique(self.users@)
        &&& room_names_unique(self.rooms@)
        &&& index_names_unique(self.user_name_lookup@)
        &&& forall|k: int|
            0 <= k < self.rooms@.len() ==> members_unique(#[trigger] self.rooms@[k].members@)
        &&& self.rooms@.len() >= 1 && self.rooms@[0].name@ == "default"@
        &&& self@.wf()
    }

    /// A fresh application: no users, no names, one empty `default` room.
    pub fn new() -> (a: ChatApp)
        ensures
            a@ == AppModel::init(),
            a.inv(),
            a@.wf(),
    {
        let mut rooms: Vec<ChatRoom> = Vec::new();
        rooms.push(ChatRoom::new(default_room_name()));
        let a = ChatApp { users: Vec::new(), rooms, user_name_lookup: Vec::new() };
        proof {
            assert(a@.users =~= AppModel::init().users);
            assert(a@.names =~= AppModel::init().names);
            assert forall|n: Seq<char>| has_room(a.rooms@, n) implies n == "default"@ by {
                let i = room_idx(a.rooms@, n);
            }
            assert(a.rooms@.len() == 1 && a.rooms@[0].name@ == "default"@);
            assert(has_room(a.rooms@, "default"@));
            assert(a.rooms@[room_idx(a.rooms@, "default"@)].members@.to_set()
                =~= Set::<usize>::empty());
            assert(a@.rooms =~= AppModel::init().rooms);
            assert(a@ =~= AppModel::init());
        }
        a
    }

    /// The index of the user owning `token`, if any.
    fn find_user_index(&self, token: usize) -> (r: Option<usize>)
        ensures
            match r {
                Some(i) => i < self.users@.len() && self.users@[i as int].id == token,
                None => !has_token(self.users@, token),
            },
    {
        let n = self.users.len();
        let mut i: usize = 0;
        while i < n
            invariant
                i <= n,
                n == self.users@.len(),
                forall|k: int| 0 <= k < i ==> self.users@[k].id != token,
            decreases n - i,
        {
            if self.users[i].id == token {
                return Some(i);
            }
            i = i + 1;
        }
        None
    }

    /// The index of the room carrying `name`, if any.
    fn find_room_index(&self, name: &String) -> (r: Option<usize>)
        ensures
            match r {
                Some(i) => i < self.rooms@.len() && self.rooms@[i as int].name@ == name@,
                None => !has_room(self.rooms@, name@),
            },
    {
        let n = self.rooms.len();
        let mut i: usize = 0;
        while i < n
            invariant
                i <= n,
                n == self.rooms@.len(),
                forall|k: int| 0 <= k < i ==> self.rooms@[k].name@ != name@,
            decreases n - i,
        {
            if self.rooms[i].name == *name {
                return Some(i);
            }
            i = i + 1;
        }
        None
    }

    /// The index of the name-index entry carrying `name`, if any.
    fn find_lookup_index(&self, name: &String) -> (r: Option<usize>)
        ensures
            match r {
                Some(i) => i < self.user_name_lookup@.len() && self.user_name_lookup@[i as int].0@
                    == name@,
                None => !has_name(self.user_name_lookup@, name@),
            },
    {
        let n = self.user_name_lookup.len();
        let mut i: usize = 0;
        while i < n
            invariant
                i <= n,
                n == self.user_name_lookup@.len(),
                forall|k: int| 0 <= k < i ==> self.user_name_lookup@[k].0@ != name@,
            decreases n - i,
        {
            if self.user_name_lookup[i].0 == *name {
                return Some(i);
            }
            i = i + 1;
        }
        None
    }

    /// The name registered for this token, if any; a lookup only.
    pub fn get_username(&self, token: usize) -> (r: Option<String>)
        requires
            self.inv(),
        ensures
            match r {
                Some(name) => self@.users.dom().contains(token) && name@ == self@.users[token].name,
                None => !self@.users.dom().contains(token),
            },
    {
        match self.find_user_index(token) {
            Some(i) => {
                proof {
                    lemma_token_idx_of(self.users@, i as int);
                }
                Some(self.users[i].user_name.clone())
            },
            None => None,
        }
    }

    /// A snapshot of the current room names: each name exactly once, in
    /// no promised order.
    pub fn get_room_list(&self) -> (r: Vec<String>)
        requires
            self.inv(),
        ensures
            forall|i: int| 0 <= i < r@.len() ==> self@.rooms.dom().contains(#[trigger] r@[i]@),
            forall|n: Seq<char>| #[trigger]
                self@.rooms.dom().contains(n) ==> exists|i: int| 0 <= i < r@.len() && r@[i]@ == n,
            forall|i: int, j: int| 0 <= i < j < r@.len() ==> r@[i]@ != r@[j]@,
    {
        let n = self.rooms.len();
        let mut r: Vec<String> = Vec::new();
        let mut i: usize = 0;
        while i < n
            invariant
                i <= n,
                n == self.rooms@.len(),
                r@.len() == i,
                forall|k: int| 0 <= k < i ==> #[trigger] r@[k]@ == self.rooms@[k].name@,
                room_names_unique(self.rooms@),
            decreases n - i,
        {
            r.push(self.rooms[i].name.clone());
            i = i + 1;
        }
        proof {
            assert forall|k: int| 0 <= k < r@.len() implies self@.rooms.dom().contains(
                #[trigger] r@[k]@,
            ) by {
                assert(self.rooms@[k].name@ == r@[k]@);
                assert(has_room(self.rooms@, r@[k]@));
            }
            assert forall|nm: Seq<char>| #[trigger] self@.rooms.dom().contains(nm) implies exists|
                i2: int,
            | 0 <= i2 < r@.len() && r@[i2]@ == nm by {
                let j = room_idx(self.rooms@, nm);
                assert(0 <= j < self.rooms@.len() && self.rooms@[j].name@ == nm);
                assert(r@[j]@ == nm);
            }
        }
        r
    }

    /// Claim `user_name` for `token`: fails when the token already owns a
    /// user or the name is already claimed; otherwise the user is created
    /// in the `default` room and both indices learn of it.
    pub fn register_user(&mut self, token: usize, user_name: String) -> (r: Result<
        (),
        RegisterError,
    >)
        requires
            old(self).inv(),
        ensures
            final(self).inv(),
            final(self)@.wf(),
            match r {
                Ok(_) => register_ok(old(self)@, token, user_name@) && final(self)@
                    == register_model(old(self)@, token, user_name@),
                Err(RegisterError::TokenAlreadyRegistered) => old(self)@.users.dom().contains(token)
                    && final(self)@ == old(self)@,
                Err(RegisterError::NameTaken) => !old(self)@.users.dom().contains(token) && old(
                    self,
                )@.names.dom().contains(user_name@) && final(self)@ == old(self)@,
            },
    {
        match self.find_user_index(token) {
            Some(i) => {
                proof {
                    lemma_token_idx_of(self.users@, i as int);
                }
                return Err(RegisterError::TokenAlreadyRegistered);
            },
            None => {},
        }
        match self.find_lookup_index(&user_name) {
            Some(i) => {
                proof {
                    lemma_name_idx_of(self.user_name_lookup@, i as int);
                }
                return Err(RegisterError::NameTaken);
            },
            None => {},
        }
        let ghost m0 = self@;
        let ghost u0 = self.users@;
        let ghost rm0 = self.rooms@;
        let ghost lk0 = self.user_name_lookup@;
        let user = ChatUser {
            id: token,
            user_name: user_name.clone(),
            location: default_room_name(),
        };
        proof {
            lemma_room_idx_of(rm0, 0);
            assert(m0.rooms.dom().contains("default"@));
            assert(m0.rooms["default"@] == rm0[0].members@.to_set());
            assert(!rm0[0].members@.contains(token)) by {
                if rm0[0].members@.contains(token) {
                    assert(m0.rooms["default"@].contains(token));
                    assert(m0.users.dom().contains(token));
                }
            }
        }
        let mut room = self.rooms.remove(0);
        room.members.push(token);
        self.rooms.insert(0, room);
        self.users.push(user);
        self.user_name_lookup.push((user_name, token));
        proof {
            let room2 = self.rooms@[0];
            assert(self.rooms@ =~= rm0.update(0, room2));
            assert(room2.name@ == "default"@);
            assert(room2.members@ == rm0[0].members@.push(token));
            lemma_to_set_push(rm0[0].members@, token);
            lemma_rooms_map_update(rm0, 0, room2);
            lemma_users_map_push(u0, user);
            let entry = self.user_name_lookup@.last();
            assert(self.user_name_lookup@ =~= lk0.push(entry));
            assert(entry.0@ == user_name@ && entry.1 == token);
            lemma_names_map_push(lk0, entry);
            assert(self@.rooms =~= register_model(m0, token, user_name@).rooms);
            assert(self@.users =~= register_model(m0, token, user_name@).users);
            assert(self@.names =~= register_model(m0, token, user_name@).names);
            assert(self@ =~= register_model(m0, token, user_name@));
            lemma_register_preserves_wf(m0, token, user_name@);
            assert forall|k: int| 0 <= k < self.rooms@.len() implies members_unique(
                #[trigger] self.rooms@[k].members@,
            ) by {
                if k == 0 {
                    assert forall|a: int, b: int|
                        0 <= a < b < room2.members@.len() implies room2.members@[a]
                        != room2.members@[b] by {
                        if b < rm0[0].members@.len() {
                            assert(rm0[0].members@[a] != rm0[0].members@[b]);
                        } else {
                            if room2.members@[a] == token {
                                assert(rm0[0].members@.contains(token));
                            }
                        }
                    }
                } else {
                    assert(self.rooms@[k] == rm0[k]);
                    assert(members_unique(rm0[k].members@));
                }
            }
        }
        Ok(())
    }

    /// Move a registered user to room `dest`, creating the room if it
    /// does not exist yet. Moving to the current room leaves the state as
    /// it was.
    #[verifier::rlimit(60)]
    pub fn move_rooms(&mut self, token: usize, dest: &String)
        requires
            old(self).inv(),
            old(self)@.users.dom().contains(token),
        ensures
            final(self).inv(),
            final(self)@ == move_model(old(self)@, token, dest@),
            final(self)@.wf(),
    {
        let ghost m0 = self@;
        let ghost u0 = self.users@;
        let ghost rm0 = self.rooms@;
        let ghost grown = move_model_grown(m0, dest@);
        // Create the room if it doesn't exist yet
        if self.find_room_index(dest).is_none() {
            let fresh = ChatRoom::new(dest.clone());
            self.rooms.push(fresh);
            proof {
                assert(self.rooms@ =~= rm0.push(fresh));
                lemma_rooms_map_push(rm0, fresh);
                assert(fresh.members@.to_set() =~= Set::<usize>::empty());
                assert(rooms_map(self.rooms@) =~= grown);
            }
        } else {
            proof {
                assert(has_room(rm0, dest@));
                assert(m0.rooms.dom().contains(dest@));
                assert(rooms_map(self.rooms@) =~= grown);
            }
        }
        let ghost rm1 = self.rooms@;
        proof {
            assert(rooms_map(rm1) == grown);
            assert(room_names_unique(rm1));
            assert forall|k: int| 0 <= k < rm1.len() implies members_unique(
                #[trigger] rm1[k].members@,
            ) by {
                if k < rm0.len() {
                    assert(rm1[k] == rm0[k]);
                    assert(members_unique(rm0[k].members@));
                }
            }
        }
        let ui = match self.find_user_index(token) {
            Some(i) => i,
            None => {
                proof {
                    assert(false);
                }
                0
            },
        };
        proof {
            lemma_token_idx_of(u0, ui as int);
        }
        let cur = self.users[ui].location.clone();
        proof {
            assert(m0.users[token].room == cur@);
            assert(m0.rooms.dom().contains(cur@));
            assert(rooms_map(rm1).dom().contains(cur@));
        }
        let ci = match self.find_room_index(&cur) {
            Some(i) => i,
            None => {
                proof {
                    assert(false);
                }
                0
            },
        };
        proof {
            lemma_room_idx_of(rm1, ci as int);
            assert(rooms_map(rm1)[cur@] == rm1[ci as int].members@.to_set());
            assert(grown[cur@].contains(token)) by {
                assert(m0.rooms[cur@].contains(token));
            }
            assert(rm1[ci as int].members@.contains(token));
        }
        let mut room = self.rooms.remove(ci);
        let mi = match find_member_index(&room.members, token) {
            Some(i) => i,
            None => {
                proof {
                    assert(false);
                }
                0
            },
        };
        let ghost cur_members = room.members@;
        room.members.remove(mi);
        self.rooms.insert(ci, room);
        let ghost rm2 = self.rooms@;
        let ghost left = grown.insert(cur@, grown[cur@].remove(token));
        proof {
            let room2 = rm2[ci as int];
            assert(rm2 =~= rm1.update(ci as int, room2));
            assert(room2.name@ == cur@);
            assert(room2.members@ == cur_members.remove(mi as int));
            assert(members_unique(cur_members));
            lemma_to_set_remove_at(cur_members, mi as int);
            lemma_rooms_map_update(rm1, ci as int, room2);
            assert(rooms_map(rm2) =~= left);
            assert forall|k: int| 0 <= k < rm2.len() implies members_unique(
                #[trigger] rm2[k].members@,
            ) by {
                if k == ci as int {
                    assert forall|a: int, b: int|
                        0 <= a < b < room2.members@.len() implies room2.members@[a]
                        != room2.members@[b] by {
                        let a0 = if a < mi as int {
                            a
                        } else {
                            a + 1
                        };
                        let b0 = if b < mi as int {
                            b
                        } else {
                            b + 1
                        };
                        assert(room2.members@[a] == cur_members[a0]);
                        assert(room2.members@[b] == cur_members[b0]);
                    }
                } else {
                    assert(rm2[k] == rm1[k]);
                    assert(members_unique(rm1[k].members@));
                }
            }
        }
        let mut user = self.users.remove(ui);
        user.location = dest.clone();
        let ghost user2 = user;
        self.users.insert(ui, user);
        proof {
            assert(self.users@ =~= u0.update(ui as int, user2));
            lemma_users_map_update(u0, ui as int, user2);
            assert(users_map(self.users@) =~= move_model(m0, token, dest@).users);
        }
        let di = match self.find_room_index(dest) {
            Some(i) => i,
            None => {
                proof {
                    assert(rooms_map(rm2).dom().contains(dest@));
                    assert(has_room(rm2, dest@));
                    assert(false);
                }
                0
            },
        };
        proof {
            lemma_room_idx_of(rm2, di as int);
            assert(rooms_map(rm2)[dest@] == rm2[di as int].members@.to_set());
            assert(!left[dest@].contains(token)) by {
                if cur@ != dest@ {
                    if grown[dest@].contains(token) {
                        if m0.rooms.dom().contains(dest@) {
                            assert(m0.rooms[dest@].contains(token));
                            assert(m0.users[token].room == dest@);
                        }
                    }
                }
            }
            assert(!rm2[di as int].members@.contains(token));
        }
        let mut room3 = self.rooms.remove(di);
        let ghost dest_members = room3.members@;
        room3.members.push(token);
        self.rooms.insert(di, room3);
        proof {
            let room4 = self.rooms@[di as int];
            assert(self.rooms@ =~= rm2.update(di as int, room4));
            assert(room4.name@ == dest@);
            assert(room4.members@ == dest_members.push(token));
            lemma_to_set_push(dest_members, token);
            lemma_rooms_map_update(rm2, di as int, room4);
            assert(rooms_map(self.rooms@) =~= left.insert(dest@, left[dest@].insert(token)));
            assert(self@ =~= move_model(m0, token, dest@));
            lemma_move_preserves_wf(m0, token, dest@);
            assert forall|k: int| 0 <= k < self.rooms@.len() implies members_unique(
                #[trigger] self.rooms@[k].members@,
            ) by {
                if k == di as int {
                    assert forall|a: int, b: int|
                        0 <= a < b < room4.members@.len() implies room4.members@[a]
                        != room4.members@[b] by {
                        if b < dest_members.len() {
                            assert(dest_members[a] != dest_members[b]);
                        } else {
                            if room4.members@[a] == token {
                                assert(dest_members.contains(token));
                            }
                        }
                    }
                } else {
                    assert(self.rooms@[k] == rm2[k]);
                    assert(members_unique(rm2[k].members@));
                }
            }
        }
    }

    /// Forget a user: the token leaves its room's members, the name
    /// leaves the index, and the user is dropped. A no-op for an
    /// unregistered token; empty rooms stay.
    pub fn remove_user(&mut self, token: usize)
        requires
            old(self).inv(),
        ensures
            final(self).inv(),
            final(self)@ == remove_model(old(self)@, token),
            final(self)@.wf(),
    {
        let ghost m0 = self@;
        let ghost u0 = self.users@;
        let ghost rm0 = self.rooms@;
        let ghost lk0 = self.user_name_lookup@;
        let ui = match self.find_user_index(token) {
            Some(i) => i,
            None => {
                proof {
                    assert(self@ =~= remove_model(m0, token));
                }
                return ;
            },
        };
        proof {
            lemma_token_idx_of(u0, ui as int);
            assert(m0.users.dom().contains(token));
        }
        let user = self.users.remove(ui);
        proof {
            lemma_users_map_remove(u0, ui as int);
            assert(m0.users[token].room == user.location@);
            assert(m0.users[token].name == user.user_name@);
            assert(m0.rooms.dom().contains(user.location@));
            assert(has_room(rm0, user.location@));
        }
        let ci = match self.find_room_index(&user.location) {
            Some(i) => i,
            None => {
                proof {
                    assert(false);
                }
                return ;
            },
        };
        proof {
            lemma_room_idx_of(rm0, ci as int);
            assert(rooms_map(rm0)[user.location@] == rm0[ci as int].members@.to_set());
            assert(m0.rooms[user.location@].contains(token));
            assert(rm0[ci as int].members@.contains(token));
        }
        let mut room = self.rooms.remove(ci);
        let mi = match find_member_index(&room.members, token) {
            Some(i) => i,
            None => {
                proof {
                    assert(false);
                }
                return ;
            },
        };
        let ghost cur_members = room.members@;
        room.members.remove(mi);
        self.rooms.insert(ci, room);
        proof {
            let room2 = self.rooms@[ci as int];
            assert(self.rooms@ =~= rm0.update(ci as int, room2));
            assert(room2.name@ == user.location@);
            assert(room2.members@ == cur_members.remove(mi as int));
            assert(members_unique(cur_members));
            lemma_to_set_remove_at(cur_members, mi as int);
            lemma_rooms_map_update(rm0, ci as int, room2);
            assert(m0.names.dom().contains(user.user_name@));
            assert(has_name(lk0, user.user_name@));
        }
        let li = match self.find_lookup_index(&user.user_name) {
            Some(i) => i,
            None => {
                proof {
                    assert(false);
                }
                return ;
            },
        };
        self.user_name_lookup.remove(li);
        proof {
            lemma_name_idx_of(lk0, li as int);
            lemma_names_map_remove(lk0, li as int);
            assert(self@.users =~= remove_model(m0, token).users);
            assert(self@.names =~= remove_model(m0, token).names);
            assert(self@.rooms =~= remove_model(m0, token).rooms);
            assert(self@ =~= remove_model(m0, token));
            lemma_remove_preserves_wf(m0, token);
            let room2 = self.rooms@[ci as int];
            assert forall|k: int| 0 <= k < self.rooms@.len() implies members_unique(
                #[trigger] self.rooms@[k].members@,
            ) by {
                if k == ci as int {
                    assert forall|a: int, b: int|
                        0 <= a < b < room2.members@.len() implies room2.members@[a]
                        != room2.members@[b] by {
                        let a0 = if a < mi as int {
                            a
                        } else {
                            a + 1
                        };
                        let b0 = if b < mi as int {
                            b
                        } else {
                            b + 1
                        };
                        assert(room2.members@[a] == cur_members[a0]);
                        assert(room2.members@[b] == cur_members[b0]);
                    }
                } else {
                    assert(self.rooms@[k] == rm0[k]);
                    assert(members_unique(rm0[k].members@));
                }
            }
        }
    }

    /// The tokens a message from `sender` should reach: every member of
    /// the sender's room except the sender, each exactly once, in no
    /// promised order.
    pub fn get_message_recipients(&self, sender: usize) -> (r: Vec<usize>)
        requires
            self.inv(),
            self@.users.dom().contains(sender),
        ensures
            r@.to_set() == recipients_model(self@, sender),
            members_unique(r@),
    {
        let ui = match self.find_user_index(sender) {
            Some(i) => i,
            None => {
                proof {
                    assert(false);
                }
                return Vec::new();
            },
        };
        proof {
            lemma_token_idx_of(self.users@, ui as int);
            assert(self@.users[sender].room == self.users@[ui as int].location@);
            assert(self@.rooms.dom().contains(self@.users[sender].room));
        }
        let ci = match self.find_room_index(&self.users[ui].location) {
            Some(i) => i,
            None => {
                proof {
                    assert(false);
                }
                return Vec::new();
            },
        };
        proof {
            lemma_room_idx_of(self.rooms@, ci as int);
        }
        let ghost members = self.rooms@[ci as int].members@;
        proof {
            assert(recipients_model(self@, sender) == members.to_set().remove(sender));
            assert(members_unique(members));
        }
        let n = self.rooms[ci].members.len();
        let mut r: Vec<usize> = Vec::new();
        let mut i: usize = 0;
        while i < n
            invariant
                i <= n,
                n == members.len(),
                members == self.rooms@[ci as int].members@,
                ci < self.rooms@.len(),
                members_unique(members),
                members_unique(r@),
                r@.to_set() == members.take(i as int).to_set().remove(sender),
            decreases n - i,
        {
            let m = self.rooms[ci].members[i];
            proof {
                assert(members.take(i as int + 1) =~= members.take(i as int).push(m));
                lemma_to_set_push(members.take(i as int), m);
            }
            if m != sender {
                proof {
                    assert(!r@.contains(m)) by {
                        if r@.contains(m) {
                            let k = choose|k: int| 0 <= k < r@.len() && r@[k] == m;
                            assert(r@.to_set().contains(m));
                            assert(members.take(i as int).to_set().contains(m));
                            let k2 = choose|k2: int|
                                0 <= k2 < members.take(i as int).len() && members.take(
                                    i as int,
                                )[k2] == m;
                            assert(members[k2] == m && members[i as int] == m);
                        }
                    }
                    lemma_to_set_push(r@, m);
                    assert(members.take(i as int).to_set().insert(m).remove(sender)
                        =~= members.take(i as int).to_set().remove(sender).insert(m));
                }
                let ghost r_old = r@;
                r.push(m);
                proof {
                    assert(r@ =~= r_old.push(m));
                    assert forall|a: int, b: int| 0 <= a < b < r@.len() implies r@[a] != r@[b] by {
                        if b < r_old.len() {
                            assert(r_old[a] != r_old[b]);
                        } else {
                            if r@[a] == m {
                                assert(r_old.contains(m));
                            }
                        }
                    }
                }
            } else {
                proof {
                    assert(members.take(i as int).to_set().insert(sender).remove(sender)
                        =~= members.take(i as int).to_set().remove(sender));
                }
            }
            i = i + 1;
        }
        proof {
            assert(members.take(n as int) =~= members);
        }
        r
    }
}

/// The room table after the destination room of a move has been created
/// if it was missing.
pub open spec fn move_model_grown(m: AppModel, dest: Seq<char>) -> Map<Seq<char>, Set<usize>> {
    if m.rooms.dom().contains(dest) {
        m.rooms
    } else {
        m.rooms.insert(dest, Set::empty())
    }
}

/// The position of `token` in a member list, if present.
fn find_member_index(members: &Vec<usize>, token: usize) -> (r: Option<usize>)
    ensures
        match r {
            Some(i) => i < members@.len() && members@[i as int] == token,
            None => !members@.contains(token),
        },
{
    let n = members.len();
    let mut i: usize = 0;
    while i < n
        invariant
            i <= n,
            n == members@.len(),
            forall|k: int| 0 <= k < i ==> members@[k] != token,
        decreases n - i,
    {
        if members[i] == token {
            return Some(i);
        }
        i = i + 1;
    }
    None
}

/// Why a registration was refused.
#[derive(Clone, Copy, Debug, PartialEq, Eq, Structural)]
pub enum RegisterError {
    /// The token already owns a user; normal flow never lets this happen.
    TokenAlreadyRegistered,
    /// Another connection holds the name.
    NameTaken,
}

/// The name of the room every server starts with.
pub fn default_room_name() -> (s: String)
    ensures
        s@ == "default"@,
{
    "default".to_owned()
}

} // verus!
