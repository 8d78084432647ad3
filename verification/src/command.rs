//! Recognition and parsing of `/`-prefixed control lines.
//!
//! A line is a command iff its first character is `/`. The first
//! whitespace-delimited word selects the command, matched case-sensitively;
//! `/join` takes the following word as the destination room.

use vstd::prelude::*;

verus! {

/// A parsed control message.
#[derive(Debug, PartialEq, Eq)]
pub enum ChatCommand {
    ListRooms,
    ChangeRoom(String),
    Quit,
}

/// The mathematical value of a parsed command.
pub enum CommandModel {
    ListRooms,
    ChangeRoom(Seq<char>),
    Quit,
}

impl View for ChatCommand {
    type V = CommandModel;

    open spec fn view(&self) -> CommandModel {
        match self {
            ChatCommand::ListRooms => CommandModel::ListRooms,
            ChatCommand::ChangeRoom(name) => CommandModel::ChangeRoom(name@),
            ChatCommand::Quit => CommandModel::Quit,
        }
    }
}

/// Whitespace, as the word splitter understands it: the Unicode
/// `White_Space` characters.
pub open spec fn is_space(c: char) -> bool {
    let u = c as u32;
    (0x09 <= u && u <= 0x0D) || u == 0x20 || u == 0x85 || u == 0xA0 || u == 0x1680 || (0x2000
        <= u && u <= 0x200A) || u == 0x2028 || u == 0x2029 || u == 0x202F || u == 0x205F || u
        == 0x3000
}

/// First index at or after `i` holding a non-space character (or the end).
pub open spec fn skip_spaces(s: Seq<char>, i: int) -> int
    recommends
        0 <= i <= s.len(),
    decreases s.len() - i,
{
    if i < 0 || i >= s.len() || !is_space(s[i]) {
        i
    } else {
        skip_spaces(s, i + 1)
    }
}

/// First index at or after `i` holding a space (or the end): the end of the
/// word that starts at `i`.
pub open spec fn word_end(s: Seq<char>, i: int) -> int
    recommends
        0 <= i <= s.len(),
    decreases s.len() - i,
{
    if i < 0 || i >= s.len() || is_space(s[i]) {
        i
    } else {
        word_end(s, i + 1)
    }
}

/// The first whitespace-delimited word of `s`, empty when `s` holds none.
pub open spec fn first_word(s: Seq<char>) -> Seq<char> {
    s.subrange(skip_spaces(s, 0), word_end(s, skip_spaces(s, 0)))
}

/// The whitespace-delimited word after the first one, empty when there is
/// none.
pub open spec fn second_word(s: Seq<char>) -> Seq<char> {
    let e1 = word_end(s, skip_spaces(s, 0));
    s.subrange(skip_spaces(s, e1), word_end(s, skip_spaces(s, e1)))
}

/// What a line parses to: `None` for an empty line, an unrecognized command
/// word, or a `/join` without an argument.
pub open spec fn parse_command(s: Seq<char>) -> Option<CommandModel> {
    let w = first_word(s);
    if w == "/rooms"@ {
        Some(CommandModel::ListRooms)
    } else if w == "/quit"@ {
        Some(CommandModel::Quit)
    } else if w == "/join"@ {
        let arg = second_word(s);
        if arg.len() == 0 {
            None
        } else {
            Some(CommandModel::ChangeRoom(arg))
        }
    } else {
        None
    }
}

/// Whether a line is a command: its first character is `/`.
pub open spec fn spec_is_command(s: Seq<char>) -> bool {
    s.len() > 0 && s[0] == '/'
}

pub fn is_command(message: &String) -> (r: bool)
    ensures
        r == spec_is_command(message@),
{
    let s = message.as_str();
    if s.unicode_len() > 0 {
        s.get_char(0) == '/'
    } else {
        false
    }
}

fn is_space_char(c: char) -> (r: bool)
    ensures
        r == is_space(c),
{
    let u = c as u32;
    (0x09 <= u && u <= 0x0D) || u == 0x20 || u == 0x85 || u == 0xA0 || u == 0x1680 || (0x2000
        <= u && u <= 0x200A) || u == 0x2028 || u == 0x2029 || u == 0x202F || u == 0x205F || u
        == 0x3000
}

/// Walk from `i` to the first non-space character.
pub(crate) fn scan_spaces(s: &str, i: usize, n: usize) -> (r: usize)
    requires
        n == s@.len(),
        i <= n,
    ensures
        i <= r <= n,
        r == skip_spaces(s@, i as int),
{
    let mut j = i;
    while j < n && is_space_char(s.get_char(j))
        invariant
            i <= j <= n,
            n == s@.len(),
            skip_spaces(s@, i as int) == skip_spaces(s@, j as int),
        decreases n - j,
    {
        j = j + 1;
    }
    j
}

/// Walk from `i` to the end of the word that starts there.
pub(crate) fn scan_word(s: &str, i: usize, n: usize) -> (r: usize)
    requires
        n == s@.len(),
        i <= n,
    ensures
        i <= r <= n,
        r == word_end(s@, i as int),
{
    let mut j = i;
    while j < n && !is_space_char(s.get_char(j))
        invariant
            i <= j <= n,
            n == s@.len(),
            word_end(s@, i as int) == word_end(s@, j as int),
        decreases n - j,
    {
        j = j + 1;
    }
    j
}

/// Character-for-character equality of two string slices.
pub fn str_eq(a: &str, b: &str) -> (r: bool)
    ensures
        r == (a@ == b@),
{
    let na = a.unicode_len();
    let nb = b.unicode_len();
    if na != nb {
        assert(a@ != b@) by {
            assert(a@.len() != b@.len());
        }
        return false;
    }
    let mut i: usize = 0;
    while i < na
        invariant
            i <= na,
            na == a@.len(),
            na == b@.len(),
            forall|k: int| 0 <= k < i ==> a@[k] == b@[k],
        decreases na - i,
    {
        if a.get_char(i) != b.get_char(i) {
            return false;
        }
        i = i + 1;
    }
    proof {
        assert(a@ =~= b@);
    }
    true
}

impl ChatCommand {
    /// Parse one line into a command, `None` when it is not a recognized
    /// one.
    pub fn new(command: &String) -> (r: Option<ChatCommand>)
        ensures
            match r {
                Some(c) => parse_command(command@) == Some(c@),
                None => parse_command(command@) is None,
            },
    {
        let s = command.as_str();
        let n = s.unicode_len();
        let ws = scan_spaces(s, 0, n);
        let we = scan_word(s, ws, n);
        let word = s.substring_char(ws, we);
        assert(word@ == first_word(command@));
        if str_eq(word, "/rooms") {
            Some(ChatCommand::ListRooms)
        } else if str_eq(word, "/quit") {
            Some(ChatCommand::Quit)
        } else if str_eq(word, "/join") {
            let ws2 = scan_spaces(s, we, n);
            let we2 = scan_word(s, ws2, n);
            if ws2 == we2 {
                assert(second_word(command@).len() == 0);
                None
            } else {
                let arg = s.substring_char(ws2, we2);
                assert(arg@ == second_word(command@));
                Some(ChatCommand::ChangeRoom(arg.to_owned()))
            }
        } else {
            None
        }
    }
}

} // verus!
