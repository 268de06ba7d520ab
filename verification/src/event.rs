//! Buffer-level editing commands and movement directions.
//!
//! Every editing command the terminal layer can issue is one variant here;
//! the buffer's command processor consumes the buffer-level ones and hands
//! every other variant back to the caller untouched, so an outer layer can
//! interpret it as a view- or application-level command.

use vstd::prelude::*;
use crate::state::BufferHandle;

verus! {

/// A movement direction on the text grid.
#[derive(Copy, Clone, PartialEq, Eq, Structural, Debug)]
pub enum Dir {
    Left,
    Right,
    Up,
    Down,
}

impl Dir {
    /// Whether the direction points towards the end of the buffer.
    pub fn is_forward(&self) -> (r: bool)
        ensures
            r == self.forward(),
    {
        match self {
            Dir::Right | Dir::Down => true,
            Dir::Left | Dir::Up => false,
        }
    }

    pub open spec fn forward(self) -> bool {
        self == Dir::Right || self == Dir::Down
    }
}

/// An editing or application command. Clipboard text travels inside the
/// `Paste` variant; `Cut` and `Copy` hand the cut or copied text back to the
/// caller, which owns the clipboard.
#[derive(Clone, Debug)]
pub enum Event {
    Insert(char),
    Backspace,
    BackspaceWord,
    Delete,
    Comment,
    Undo,
    Redo,
    CursorMove(Dir, bool),
    CursorJump(Dir, bool),
    PageMove(Dir, bool),
    SelectAll,
    SwitchEditor(Dir),
    NewEditor(Dir),
    NewTerminal(Dir),
    CloseEditor,
    OpenPrompt,
    OpenSwitcher,
    OpenOpener,
    NewFile(String),
    OpenFile(String),
    CloseMenu,
    NewBuffer,
    SwitchBuffer(BufferHandle),
    CloseBuffer { force: bool },
    ConfirmCloseBuffer(BufferHandle),
    SaveBuffer,
    Cut,
    Copy,
    Paste(String),
    Duplicate,
    Escape,
    Quit,
    Tick,
}

/// The commands the buffer's own processor consumes; everything else is
/// routed back to the caller.
pub open spec fn is_buffer_event(e: Event) -> bool {
    match e {
        Event::Insert(_) => true,
        Event::Backspace => true,
        Event::BackspaceWord => true,
        Event::Delete => true,
        Event::Comment => true,
        Event::Undo => true,
        Event::Redo => true,
        Event::CursorMove(_, _) => true,
        Event::CursorJump(_, _) => true,
        Event::SelectAll => true,
        Event::Duplicate => true,
        Event::Cut => true,
        Event::Copy => true,
        Event::Paste(_) => true,
        _ => false,
    }
}

/// The commands that may change the buffer's content and therefore open (or
/// extend) an undo step and clear the redo stack.
pub open spec fn is_mutating_event(e: Event) -> bool {
    match e {
        Event::Insert(_) => true,
        Event::Backspace => true,
        Event::BackspaceWord => true,
        Event::Delete => true,
        Event::Comment => true,
        Event::Duplicate => true,
        Event::Cut => true,
        Event::Paste(_) => true,
        _ => false,
    }
}

} // verus!
