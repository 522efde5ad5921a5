//! The application state and the decisions behind its buttons: theming and
//! panel flags, the note store, and the editor session, with the transitions
//! the interface triggers. Rendering and I/O stay outside the library.

use vstd::prelude::*;
use vstd::string::StringExecFns;
use crate::codec::spec_encode;
use crate::errors::NoteError;
use crate::note::{Color, Note, NoteView};
use crate::session::EditorSession;
use crate::store::NoteWarp;

verus! {

/// The persisted configuration: theme and side-panel visibility.
#[derive(Clone, Copy, Debug, PartialEq, Eq, Structural)]
pub struct AppConfig {
    pub dark_mode: bool,
    pub bookmark_panel: bool,
}

impl AppConfig {
    /// The configuration a fresh install starts with.
    pub fn new() -> (c: AppConfig)
        ensures
            c.dark_mode,
            c.bookmark_panel,
    {
        AppConfig { dark_mode: true, bookmark_panel: true }
    }
}

impl Default for AppConfig {
    /// The same defaults, for configuration stores that want them.
    fn default() -> (c: AppConfig)
        ensures
            c.dark_mode,
            c.bookmark_panel,
    {
        AppConfig { dark_mode: true, bookmark_panel: true }
    }
}

/// The whole application state: labels, configuration, the note store, the
/// editor session, and the window flags the interface reads.
pub struct SnowApp {
    pub label: String,
    pub empty_label: String,
    pub config: AppConfig,
    pub note_warp: NoteWarp,
    pub config_window: bool,
    pub session: EditorSession,
    pub confirmation_window: (bool, String),
}

impl SnowApp {
    /// The store and the session are well-formed, and an open session
    /// always points at a note that exists.
    pub open spec fn wf(self) -> bool {
        &&& self.note_warp.wf()
        &&& self.session.wf()
        &&& self.session.open ==> self.session.target_index->Some_0 < self.note_warp@.len()
    }

    /// Builds the application state around an already loaded configuration
    /// and note list; reading both from disk is the shell's business.
    pub fn new(config: AppConfig, notes: Vec<Note>) -> (app: SnowApp)
        requires
            crate::codec::all_valid(crate::codec::views(notes@)),
        ensures
            app.config == config,
            app.note_warp@ == crate::codec::views(notes@),
            !app.session.open,
            !app.config_window,
            !app.confirmation_window.0,
            app.label@ == "Hallo, Snowy World"@,
            app.empty_label@.len() == 0,
            app.wf(),
    {
        SnowApp {
            label: String::from_str("Hallo, Snowy World"),
            empty_label: String::new(),
            config,
            note_warp: NoteWarp::from_notes(notes),
            config_window: false,
            session: EditorSession::new(),
            confirmation_window: (false, String::new()),
        }
    }

    /// Flips the theme; the shell persists the configuration afterwards.
    pub fn toggle_theme(&mut self)
        ensures
            final(self).config.dark_mode == !old(self).config.dark_mode,
            final(self).config.bookmark_panel == old(self).config.bookmark_panel,
            final(self).note_warp == old(self).note_warp,
            final(self).session == old(self).session,
            old(self).wf() ==> final(self).wf(),
    {
        self.config.dark_mode = !self.config.dark_mode;
    }

    /// Shows or hides the bookmarks panel; the shell persists the
    /// configuration afterwards.
    pub fn toggle_bookmarks(&mut self)
        ensures
            final(self).config.bookmark_panel == !old(self).config.bookmark_panel,
            final(self).config.dark_mode == old(self).config.dark_mode,
            final(self).note_warp == old(self).note_warp,
            final(self).session == old(self).session,
            old(self).wf() ==> final(self).wf(),
    {
        self.config.bookmark_panel = !self.config.bookmark_panel;
    }

    /// Opens the editor on the note at `index`, or reports `IndexOutOfRange`
    /// and changes nothing: a session is only ever open on a note that
    /// exists.
    pub fn select_note(&mut self, index: usize) -> (r: Result<(), NoteError>)
        requires
            old(self).wf(),
        ensures
            index < old(self).note_warp@.len() ==> (r is Ok && final(self).session.open
                && final(self).session.target_index == Some(index)),
            index >= old(self).note_warp@.len() ==> (r matches Err(e)
                && e == NoteError::IndexOutOfRange && *final(self) == *old(self)),
            final(self).note_warp == old(self).note_warp,
            final(self).config == old(self).config,
            final(self).wf(),
    {
        if index < self.note_warp.len() {
            self.session.open(index);
            Ok(())
        } else {
            Err(NoteError::IndexOutOfRange)
        }
    }

    /// Appends a fresh, empty note under the next identifier and opens the
    /// editor on it; yields its index, or nothing in the unreachable case
    /// that the identifier range is spent.
    pub fn create_note(&mut self) -> (r: Option<usize>)
        requires
            old(self).wf(),
        ensures
            old(self).note_warp.can_assign_id() ==> (r matches Some(idx)
                && idx == old(self).note_warp@.len()
                && final(self).note_warp@.len() == old(self).note_warp@.len() + 1
                && final(self).note_warp@.subrange(0, idx as int) == old(self).note_warp@
                && final(self).note_warp@[idx as int].id == old(self).note_warp.next_id
                && final(self).note_warp@[idx as int].title.len() == 0
                && final(self).note_warp@[idx as int].text.len() == 0
                && final(self).note_warp@[idx as int].color == (Color { red: 0, green: 0, blue: 0 })
                && final(self).session.open
                && final(self).session.target_index == Some(idx)
                && final(self).note_warp.next_id == old(self).note_warp.next_id + 1),
            !old(self).note_warp.can_assign_id() ==> (r is None && *final(self) == *old(self)),
            final(self).config == old(self).config,
            final(self).wf(),
    {
        if self.note_warp.next_id <= i32::MAX as i64 {
            let id: i32 = self.note_warp.next_id as i32;
            let note = Note::new(
                id,
                String::new(),
                String::new(),
                Color { red: 0, green: 0, blue: 0 },
            );
            let ghost before = self.note_warp@;
            let index = self.note_warp.len();
            self.note_warp.append(note);
            self.session.open(index);
            proof {
                assert(self.note_warp@.subrange(0, index as int) =~= before);
            }
            Some(index)
        } else {
            None
        }
    }

    /// Closes the editor, saving nothing and touching no note.
    pub fn close_editor(&mut self)
        ensures
            !final(self).session.open,
            final(self).note_warp == old(self).note_warp,
            final(self).config == old(self).config,
            old(self).wf() ==> final(self).wf(),
    {
        self.session.close();
    }

    /// Encodes the entire current sequence for the shell to write to disk,
    /// then closes the editor: saving is explicit and whole.
    pub fn save_editor(&mut self) -> (r: String)
        requires
            old(self).wf(),
        ensures
            r@ == spec_encode(old(self).note_warp@),
            final(self).note_warp == old(self).note_warp,
            !final(self).session.open,
            final(self).config == old(self).config,
            final(self).wf(),
    {
        let text = self.note_warp.save();
        self.session.close();
        text
    }

    /// Replaces the open note's title, immediately and in place; reports
    /// whether any note was open.
    pub fn edit_title(&mut self, title: String) -> (r: bool)
        requires
            old(self).wf(),
        ensures
            old(self).session.open ==> (r && final(self).note_warp@
                == old(self).note_warp@.update(
                old(self).session.target_index->Some_0 as int,
                (NoteView {
                    title: title@,
                    ..old(self).note_warp@[old(self).session.target_index->Some_0 as int]
                }),
            )),
            !old(self).session.open ==> (!r && *final(self) == *old(self)),
            final(self).session == old(self).session,
            final(self).config == old(self).config,
            final(self).wf(),
    {
        match self.session.current_index() {
            Some(index) => {
                let ghost before = self.note_warp;
                let _ = self.note_warp.set_title(index, title);
                proof {
                    before.lemma_update_field_wf(
                        self.note_warp,
                        index as int,
                        self.note_warp@[index as int],
                    );
                }
                true
            },
            None => false,
        }
    }

    /// Replaces the open note's body text, immediately and in place;
    /// reports whether any note was open.
    pub fn edit_text(&mut self, text: String) -> (r: bool)
        requires
            old(self).wf(),
        ensures
            old(self).session.open ==> (r && final(self).note_warp@
                == old(self).note_warp@.update(
                old(self).session.target_index->Some_0 as int,
                (NoteView {
                    text: text@,
                    ..old(self).note_warp@[old(self).session.target_index->Some_0 as int]
                }),
            )),
            !old(self).session.open ==> (!r && *final(self) == *old(self)),
            final(self).session == old(self).session,
            final(self).config == old(self).config,
            final(self).wf(),
    {
        match self.session.current_index() {
            Some(index) => {
                let ghost before = self.note_warp;
                let _ = self.note_warp.set_text(index, text);
                proof {
                    before.lemma_update_field_wf(
                        self.note_warp,
                        index as int,
                        self.note_warp@[index as int],
                    );
                }
                true
            },
            None => false,
        }
    }

    /// Replaces the open note's colour tag, immediately and in place;
    /// reports whether any note was open.
    pub fn edit_color(&mut self, color: Color) -> (r: bool)
        requires
            old(self).wf(),
        ensures
            old(self).session.open ==> (r && final(self).note_warp@
                == old(self).note_warp@.update(
                old(self).session.target_index->Some_0 as int,
                (NoteView {
                    color,
                    ..old(self).note_warp@[old(self).session.target_index->Some_0 as int]
                }),
            )),
            !old(self).session.open ==> (!r && *final(self) == *old(self)),
            final(self).session == old(self).session,
            final(self).config == old(self).config,
            final(self).wf(),
    {
        match self.session.current_index() {
            Some(index) => {
                let ghost before = self.note_warp;
                let _ = self.note_warp.set_color(index, color);
                proof {
                    before.lemma_update_field_wf(
                        self.note_warp,
                        index as int,
                        self.note_warp@[index as int],
                    );
                }
                true
            },
            None => false,
        }
    }
}

} // verus!
