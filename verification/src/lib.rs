//! Editing core of a terminal text editor: line-oriented character storage,
//! cursors and selections, shared buffers with an undo/redo history, and the
//! processor that turns editing commands into primitive text operations.
//!
//! The surrounding terminal program (rendering, key decoding, file and
//! clipboard access) lives outside this crate and talks to it through plain
//! values: strings, positions, commands and timestamps.

pub mod content;
pub mod cursor;
pub mod event;
pub mod highlight;
pub mod shared;
pub mod state;
pub mod theme;
pub mod ui;

pub use content::Content;
pub use content::Loc;
pub use cursor::CharKind;
pub use cursor::Cursor;
pub use event::Dir;
pub use event::Event;
pub use shared::BufferId;
pub use shared::CursorId;
pub use shared::SharedBuffer;
pub use state::BufferHandle;
pub use highlight::Highlights;
pub use highlight::Region;

