//! The editor session: transient state tracking which single note, if any,
//! is open for editing. It starts closed, opens on one index at a time, and
//! returns to closed on close or save.

use vstd::prelude::*;

verus! {

/// The single-document editor's state: either closed, or open on the index
/// of one note in the store.
pub struct EditorSession {
    /// Whether a note is open for editing.
    pub open: bool,
    /// The index of the open note, present exactly while the session is
    /// open.
    pub target_index: Option<usize>,
}

impl EditorSession {
    /// The flag and the index agree: an index is held exactly while open.
    pub open spec fn wf(self) -> bool {
        self.open <==> self.target_index is Some
    }

    /// A session begins closed.
    pub fn new() -> (s: EditorSession)
        ensures
            !s.open,
            s.target_index is None,
            s.wf(),
    {
        EditorSession { open: false, target_index: None }
    }

    /// Opens the session on the note at `index`.
    pub fn open(&mut self, index: usize)
        ensures
            final(self).open,
            final(self).target_index == Some(index),
            final(self).wf(),
    {
        self.open = true;
        self.target_index = Some(index);
    }

    /// Closes the session, discarding nothing but the selection itself.
    pub fn close(&mut self)
        ensures
            !final(self).open,
            final(self).target_index is None,
            final(self).wf(),
    {
        self.open = false;
        self.target_index = None;
    }

    /// The index of the note open for editing, if any.
    pub fn current_index(&self) -> (r: Option<usize>)
        ensures
            r == self.target_index,
    {
        self.target_index
    }

    /// Whether a note is open for editing.
    pub fn is_open(&self) -> (r: bool)
        ensures
            r == self.open,
    {
        self.open
    }
}

} // verus!
