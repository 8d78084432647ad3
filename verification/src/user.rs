//! An authorized identity: a connection that has claimed a name.

use vstd::prelude::*;

verus! {

/// A registered user. The token ties the user to a connection; the
/// location is the name of the room the user is in.
pub struct ChatUser {
    pub id: usize,
    pub user_name: String,
    pub location: String,
}

} // verus!
