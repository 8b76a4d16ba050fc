//! The menu choices of an interactive session.
use vstd::prelude::*;

use crate::text::{chars_of, parse_u32, parse_u32_spec};

verus! {

/// What a menu choice asks for. Every choice other than `1` to `5` saves and ends.
#[derive(Debug, PartialEq, Eq, Clone, Copy)]
pub enum Command {
    ShowAll,
    ShowOpen,
    Create,
    Complete,
    Delete,
    SaveAndExit,
}

/// The command a (trimmed) choice names.
pub open spec fn command_of(s: Seq<char>) -> Command {
    if s == seq!['1'] {
        Command::ShowAll
    } else if s == seq!['2'] {
        Command::ShowOpen
    } else if s == seq!['3'] {
        Command::Create
    } else if s == seq!['4'] {
        Command::Complete
    } else if s == seq!['5'] {
        Command::Delete
    } else {
        Command::SaveAndExit
    }
}

impl Command {
    /// The command for a choice typed at the menu, already trimmed.
    pub fn from_choice(choice: &str) -> (r: Command)
        ensures
            r == command_of(choice@),
    {
        let cs = chars_of(choice);
        if cs.len() != 1 {
            proof {
                assert(forall|c: char| cs@ != seq![c]);
            }
            return Command::SaveAndExit;
        }
        let c = cs[0];
        proof {
            assert(choice@ == seq![c]);
        }
        if c == '1' {
            Command::ShowAll
        } else if c == '2' {
            Command::ShowOpen
        } else if c == '3' {
            Command::Create
        } else if c == '4' {
            Command::Complete
        } else if c == '5' {
            Command::Delete
        } else {
            proof {
                assert(seq![c] != seq!['1'] && seq![c] != seq!['2'] && seq![c] != seq!['3']
                    && seq![c] != seq!['4'] && seq![c] != seq!['5']) by {
                    assert(seq![c][0] == c);
                }
            }
            Command::SaveAndExit
        }
    }
}

/// A task id typed by the user (already trimmed): an optional `+`, then
/// decimal digits.
pub fn parse_id(s: &str) -> (r: Option<u32>)
    ensures
        r == parse_u32_spec(s@),
{
    let cs = chars_of(s);
    parse_u32(cs.as_slice())
}

} // verus!
