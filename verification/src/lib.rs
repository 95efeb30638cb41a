//! The server console's text-side logic: a line editor, command history,
//! completion over a command tree, word wrapping and log filtering, what the
//! panes show, and the key-driven state machine of the console itself.

pub mod text;
pub mod width;
pub mod backend;
pub mod input;
pub mod completion;
pub mod history;
pub mod wrap;
pub mod console;
pub mod app;
pub mod layout;
