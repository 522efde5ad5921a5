//! The error taxonomy of the library: a file that cannot be read or written,
//! persisted content that cannot be decoded, and an index that names no note.

use vstd::prelude::*;

verus! {

/// Everything that can go wrong around the note store.
///
/// `IOError` is produced by the unverified shell when the data file is
/// missing or unwritable; the library itself never performs I/O. The other
/// two variants are produced by the library: `DecodeError` when persisted
/// content is not a well-formed note list, `IndexOutOfRange` when an index
/// does not name a note in the store.
#[derive(Clone, Copy, Debug, PartialEq, Eq, Structural)]
pub enum NoteError {
    IOError,
    DecodeError,
    IndexOutOfRange,
}

impl NoteError {
    /// A short human-readable name for the error, for the shell to print.
    pub fn message(&self) -> (r: &'static str)
        ensures
            r@ == match self {
                NoteError::IOError => "could not read or write the note file"@,
                NoteError::DecodeError => "the note file is not well-formed"@,
                NoteError::IndexOutOfRange => "no note exists at that index"@,
            },
    {
        match self {
            NoteError::IOError => "could not read or write the note file",
            NoteError::DecodeError => "the note file is not well-formed",
            NoteError::IndexOutOfRange => "no note exists at that index",
        }
    }
}

} // verus!
