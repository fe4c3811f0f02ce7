//! Decisions of the interactive session that do not touch the terminal:
//! mapping an already-decoded key character to the action it requests.

use vstd::prelude::*;

verus! {

/// A top-level action the user can request from the main screen.
#[derive(Debug, PartialEq, Eq, Structural)]
pub enum Action {
    Write,
    View,
    Edit,
    Delete,
    Search,
    Quit,
}

/// The action a key character requests. Writing and quitting are always
/// available; viewing, editing, deleting and searching only when the store
/// has entries; every other key requests nothing.
pub open spec fn action_for_key_spec(c: char, has_entries: bool) -> Option<Action> {
    if c == 'w' {
        Some(Action::Write)
    } else if c == 'q' {
        Some(Action::Quit)
    } else if c == 'v' && has_entries {
        Some(Action::View)
    } else if c == 'e' && has_entries {
        Some(Action::Edit)
    } else if c == 'd' && has_entries {
        Some(Action::Delete)
    } else if c == 's' && has_entries {
        Some(Action::Search)
    } else {
        None
    }
}

/// Maps a decoded key character to the action it requests, if any.
pub fn action_for_key(c: char, has_entries: bool) -> (r: Option<Action>)
    ensures
        r == action_for_key_spec(c, has_entries),
{
    if c == 'w' {
        Some(Action::Write)
    } else if c == 'q' {
        Some(Action::Quit)
    } else if c == 'v' && has_entries {
        Some(Action::View)
    } else if c == 'e' && has_entries {
        Some(Action::Edit)
    } else if c == 'd' && has_entries {
        Some(Action::Delete)
    } else if c == 's' && has_entries {
        Some(Action::Search)
    } else {
        None
    }
}

} // verus!
