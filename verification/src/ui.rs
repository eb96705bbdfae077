//! Decisions of the interactive interface, separated from the terminal:
//! which pane is active, how list selections wrap around, and what
//! action each key asks for. The binary around the library draws the
//! screen and performs the actions; the choices themselves are made
//! here.

use vstd::prelude::*;

verus! {

/// The two panes of the interface.
#[derive(Clone, Copy, PartialEq, Eq, Structural, Debug)]
pub enum Pane {
    Harnesses,
    Profiles,
}

/// A key press, reduced to what the interface reacts to.
#[derive(Clone, Copy, PartialEq, Eq, Structural, Debug)]
pub enum Key {
    Char(char),
    Up,
    Down,
    Enter,
    Tab,
    Esc,
}

/// What the interface should do next.
#[derive(Clone, Copy, PartialEq, Eq, Structural, Debug)]
pub enum UiAction {
    Quit,
    SwitchPane,
    MoveUp,
    MoveDown,
    SwitchToSelected,
    Refresh,
    NewProfile,
    DeleteSelected,
    EditSelected,
    Idle,
}

/// The selection after moving one step down a list of `len` entries,
/// wrapping at the end; an empty selection starts at the top.
pub open spec fn next_index_spec(i: Option<usize>, len: usize) -> usize {
    match i {
        Some(x) => ((x + 1) % (len as int)) as usize,
        None => 0,
    }
}

/// The selection after moving one step up, wrapping at the top; an
/// empty selection starts at the top.
pub open spec fn prev_index_spec(i: Option<usize>, len: usize) -> usize {
    match i {
        Some(x) => if x == 0 {
            (len - 1) as usize
        } else {
            (x - 1) as usize
        },
        None => 0,
    }
}

/// Moves a selection one step down, wrapping.
pub fn next_index(i: Option<usize>, len: usize) -> (r: usize)
    requires
        len > 0,
        i matches Some(x) ==> x < len,
    ensures
        r == next_index_spec(i, len),
        r < len,
{
    match i {
        Some(x) => (x + 1) % len,
        None => 0,
    }
}

/// Moves a selection one step up, wrapping.
pub fn prev_index(i: Option<usize>, len: usize) -> (r: usize)
    requires
        len > 0,
        i matches Some(x) ==> x < len,
    ensures
        r == prev_index_spec(i, len),
        r < len,
{
    match i {
        Some(x) => if x == 0 {
            len - 1
        } else {
            x - 1
        },
        None => 0,
    }
}

/// The action each key asks for, given the active pane.
pub open spec fn key_action_spec(key: Key, pane: Pane) -> UiAction {
    match key {
        Key::Char(c) => if c == 'q' {
            UiAction::Quit
        } else if c == 'k' {
            UiAction::MoveUp
        } else if c == 'j' {
            UiAction::MoveDown
        } else if c == 'r' {
            UiAction::Refresh
        } else if c == 'n' {
            UiAction::NewProfile
        } else if c == 'd' {
            if pane is Profiles {
                UiAction::DeleteSelected
            } else {
                UiAction::Idle
            }
        } else if c == 'e' {
            if pane is Profiles {
                UiAction::EditSelected
            } else {
                UiAction::Idle
            }
        } else {
            UiAction::Idle
        },
        Key::Esc => UiAction::Quit,
        Key::Tab => UiAction::SwitchPane,
        Key::Up => UiAction::MoveUp,
        Key::Down => UiAction::MoveDown,
        Key::Enter => if pane is Profiles {
            UiAction::SwitchToSelected
        } else {
            UiAction::Idle
        },
    }
}

/// Maps a key press to the action it asks for, given the active pane.
pub fn key_action(key: Key, pane: Pane) -> (r: UiAction)
    ensures
        r == key_action_spec(key, pane),
{
    match key {
        Key::Char(c) => {
            if c == 'q' {
                UiAction::Quit
            } else if c == 'k' {
                UiAction::MoveUp
            } else if c == 'j' {
                UiAction::MoveDown
            } else if c == 'r' {
                UiAction::Refresh
            } else if c == 'n' {
                UiAction::NewProfile
            } else if c == 'd' {
                if pane == Pane::Profiles {
                    UiAction::DeleteSelected
                } else {
                    UiAction::Idle
                }
            } else if c == 'e' {
                if pane == Pane::Profiles {
                    UiAction::EditSelected
                } else {
                    UiAction::Idle
                }
            } else {
                UiAction::Idle
            }
        },
        Key::Esc => UiAction::Quit,
        Key::Tab => UiAction::SwitchPane,
        Key::Up => UiAction::MoveUp,
        Key::Down => UiAction::MoveDown,
        Key::Enter => {
            if pane == Pane::Profiles {
                UiAction::SwitchToSelected
            } else {
                UiAction::Idle
            }
        },
    }
}

/// The pane the interface shows after a pane switch.
pub fn other_pane(pane: Pane) -> (r: Pane)
    ensures
        pane is Harnesses ==> r is Profiles,
        pane is Profiles ==> r is Harnesses,
{
    match pane {
        Pane::Harnesses => Pane::Profiles,
        Pane::Profiles => Pane::Harnesses,
    }
}

} // verus!
