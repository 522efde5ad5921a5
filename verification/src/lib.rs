//! A small note-keeping library: a durable list of notes, an editor session
//! state machine governing which note is open for editing, and a verified
//! text codec for the on-disk form of the note list.
//!
//! File and configuration I/O stay outside the library; the library computes
//! on plain values and states what it computes.

pub mod app;
mod clock;
pub mod codec;
pub mod errors;
pub mod note;
pub mod session;
pub mod store;

pub use app::{AppConfig, SnowApp};
pub use errors::NoteError;
pub use note::{Color, Note, NoteView};
pub use session::EditorSession;
pub use store::NoteWarp;
