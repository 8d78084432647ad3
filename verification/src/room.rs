//! A named chat channel and its member tokens.

use vstd::prelude::*;

verus! {

/// A room: a name and the tokens of the users in it. Rooms are created on
/// demand and never deleted; the room named `default` exists from startup.
pub struct ChatRoom {
    pub name: String,
    pub members: Vec<usize>,
}

impl ChatRoom {
    /// A fresh, empty room.
    pub fn new(name: String) -> (r: ChatRoom)
        ensures
            r.name@ == name@,
            r.members@ == Seq::<usize>::empty(),
    {
        ChatRoom { name, members: Vec::new() }
    }
}

} // verus!
