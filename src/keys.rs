//! Logical events of the input-mode controller, and how key symbols with
//! their modifier masks map onto them.

use vstd::prelude::*;

verus! {

pub const KEY_SPACE: u32 = 0x020;
pub const KEY_TILDE: u32 = 0x07e;
pub const KEY_E: u32 = 0x065;
pub const KEY_W: u32 = 0x077;
pub const KEY_BACKSPACE: u32 = 0xff08;
pub const KEY_RETURN: u32 = 0xff0d;
pub const KEY_ESCAPE: u32 = 0xff1b;
pub const KEY_LEFT: u32 = 0xff51;
pub const KEY_UP: u32 = 0xff52;
pub const KEY_RIGHT: u32 = 0xff53;
pub const KEY_DOWN: u32 = 0xff54;
pub const KEY_PAGE_UP: u32 = 0xff55;
pub const KEY_PAGE_DOWN: u32 = 0xff56;

pub const SHIFT_MASK: u32 = 1;
pub const CONTROL_MASK: u32 = 4;

/// What the controller is asked to do, whatever key or button asked it.
#[derive(Clone, Copy, Debug, PartialEq, Eq, Structural)]
pub enum Event {
    /// Control-E: open the symbol table.
    EnterSymbolMode,
    /// Control-W: open the word table for the word typed so far.
    EnterWordMode,
    /// A printable ASCII character other than the space.
    Character(char),
    /// The space bar.
    Separator,
    /// Return: commit the candidate under the cursor.
    Commit,
    /// A candidate of the current page was clicked (index within the page).
    Clicked(u32),
    /// The caret moved (left or right arrow).
    CaretMove,
    CursorUp,
    CursorDown,
    PageUp,
    PageDown,
    Backspace,
    /// Escape: close the table without committing.
    Cancel,
    /// The text field lost the input focus.
    FocusOut,
    /// A key that the controller leaves to the host.
    Unhandled,
}

/// The event that a key symbol stands for under a modifier mask: with
/// exactly Control held, E and W switch modes; with any modifier but Shift
/// held, the key is left alone.
pub open spec fn key_event(keyval: u32, modifiers: u32) -> Event {
    if modifiers == CONTROL_MASK {
        if keyval == KEY_E {
            Event::EnterSymbolMode
        } else if keyval == KEY_W {
            Event::EnterWordMode
        } else {
            Event::Unhandled
        }
    } else if modifiers != 0 && modifiers != SHIFT_MASK {
        Event::Unhandled
    } else if keyval == KEY_SPACE {
        Event::Separator
    } else if keyval == KEY_RETURN {
        Event::Commit
    } else if keyval == KEY_LEFT || keyval == KEY_RIGHT {
        Event::CaretMove
    } else if keyval == KEY_UP {
        Event::CursorUp
    } else if keyval == KEY_DOWN {
        Event::CursorDown
    } else if keyval == KEY_BACKSPACE {
        Event::Backspace
    } else if keyval == KEY_PAGE_DOWN {
        Event::PageDown
    } else if keyval == KEY_PAGE_UP {
        Event::PageUp
    } else if keyval == KEY_ESCAPE {
        Event::Cancel
    } else if KEY_SPACE < keyval && keyval <= KEY_TILDE {
        Event::Character((keyval as u8) as char)
    } else {
        Event::Unhandled
    }
}

pub fn classify_key(keyval: u32, modifiers: u32) -> (r: Event)
    ensures
        r == key_event(keyval, modifiers),
{
    if modifiers == CONTROL_MASK {
        if keyval == KEY_E {
            Event::EnterSymbolMode
        } else if keyval == KEY_W {
            Event::EnterWordMode
        } else {
            Event::Unhandled
        }
    } else if modifiers != 0 && modifiers != SHIFT_MASK {
        Event::Unhandled
    } else if keyval == KEY_SPACE {
        Event::Separator
    } else if keyval == KEY_RETURN {
        Event::Commit
    } else if keyval == KEY_LEFT || keyval == KEY_RIGHT {
        Event::CaretMove
    } else if keyval == KEY_UP {
        Event::CursorUp
    } else if keyval == KEY_DOWN {
        Event::CursorDown
    } else if keyval == KEY_BACKSPACE {
        Event::Backspace
    } else if keyval == KEY_PAGE_DOWN {
        Event::PageDown
    } else if keyval == KEY_PAGE_UP {
        Event::PageUp
    } else if keyval == KEY_ESCAPE {
        Event::Cancel
    } else if KEY_SPACE < keyval && keyval <= KEY_TILDE {
        Event::Character((keyval as u8) as char)
    } else {
        Event::Unhandled
    }
}

} // verus!
