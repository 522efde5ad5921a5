//! The note store: the ordered, durable list of notes, single source of
//! truth, with a monotonic counter from which fresh identifiers come.

use vstd::prelude::*;
use crate::codec::{all_valid, load_notes, save_notes, spec_decode, spec_encode, views};
use crate::errors::NoteError;
use crate::note::{Color, Note, NoteView};

verus! {

/// The in-memory, disk-backed collection of all notes. Insertion order is
/// display order. `next_id` stays above every identifier in the store, so
/// a fresh note never reuses one.
pub struct NoteWarp {
    /// The notes, in display order.
    pub notes: Vec<Note>,
    /// The least identifier no stored note has reached yet.
    pub next_id: i64,
}

impl View for NoteWarp {
    type V = Seq<NoteView>;

    open spec fn view(&self) -> Seq<NoteView> {
        views(self.notes@)
    }
}

impl NoteWarp {
    /// Every stored note has a non-negative identifier below the counter,
    /// and the counter never leaves the range a fresh `i32` identifier
    /// could come from.
    pub open spec fn wf(self) -> bool {
        &&& 0 <= self.next_id <= i32::MAX as i64 + 1
        &&& forall|i: int| 0 <= i < self@.len() ==> 0 <= (#[trigger] self@[i]).id < self.next_id
    }

    /// Whether the counter can still hand out an identifier.
    pub open spec fn can_assign_id(self) -> bool {
        self.next_id <= i32::MAX as i64
    }

    /// The least identifier above every one in the sequence, and no higher:
    /// what the counter holds right after taking a list over.
    pub open spec fn min_fresh_id(ns: Seq<NoteView>) -> int
        decreases ns.len(),
    {
        if ns.len() == 0 {
            0
        } else {
            let rest = Self::min_fresh_id(ns.drop_last());
            if ns.last().id + 1 > rest {
                ns.last().id + 1
            } else {
                rest
            }
        }
    }

    /// An empty store.
    pub fn new() -> (s: NoteWarp)
        ensures
            s@ == Seq::<NoteView>::empty(),
            s.wf(),
            s.next_id == 0,
    {
        let s = NoteWarp { notes: Vec::new(), next_id: 0 };
        proof {
            assert(s@ =~= Seq::<NoteView>::empty());
        }
        s
    }

    /// Takes ownership of a list of notes, setting the counter above every
    /// identifier found in it.
    pub fn from_notes(notes: Vec<Note>) -> (s: NoteWarp)
        requires
            all_valid(views(notes@)),
        ensures
            s@ == views(notes@),
            s.next_id == Self::min_fresh_id(views(notes@)),
            s.wf(),
    {
        let ghost ns = views(notes@);
        let mut next_id: i64 = 0;
        let mut i: usize = 0;
        proof {
            assert(ns.take(0) =~= Seq::<NoteView>::empty());
        }
        while i < notes.len()
            invariant
                i <= notes@.len(),
                ns == views(notes@),
                0 <= next_id <= i32::MAX as i64 + 1,
                all_valid(ns),
                next_id == Self::min_fresh_id(ns.take(i as int)),
                forall|k: int| 0 <= k < i ==> (#[trigger] ns[k]).id < next_id,
            decreases notes@.len() - i,
        {
            proof {
                assert(ns[i as int] == notes@[i as int]@);
                assert(ns[i as int].valid());
                assert(ns.take(i + 1).drop_last() =~= ns.take(i as int));
                assert(ns.take(i + 1).last() == ns[i as int]);
            }
            let id64: i64 = notes[i].id as i64;
            if id64 >= next_id {
                next_id = id64 + 1;
            }
            i += 1;
        }
        proof {
            assert(ns.take(notes@.len() as int) =~= ns);
        }
        NoteWarp { notes, next_id }
    }

    /// How many notes the store holds.
    pub fn len(&self) -> (n: usize)
        ensures
            n == self@.len(),
    {
        self.notes.len()
    }

    /// A read-only view of the whole sequence, for listing.
    pub fn sequence(&self) -> (r: &Vec<Note>)
        ensures
            views(r@) == self@,
    {
        &self.notes
    }

    /// The note at `index`, or `IndexOutOfRange` exactly when `index` names
    /// none: for every store state, including the empty one.
    pub fn get(&self, index: usize) -> (r: Result<&Note, NoteError>)
        ensures
            index < self@.len() ==> (r matches Ok(n) && n@ == self@[index as int]),
            index >= self@.len() ==> (r matches Err(e) && e == NoteError::IndexOutOfRange),
    {
        if index < self.notes.len() {
            proof {
                assert(self@[index as int] == self.notes@[index as int]@);
            }
            Ok(&self.notes[index])
        } else {
            Err(NoteError::IndexOutOfRange)
        }
    }

    /// A mutable borrow of the note at `index`, for editing in place. The
    /// index must name a note: callers obtain it from the store at the
    /// moment of opening, and check it, as the field setters below do.
    /// Writing an identifier through the borrow can lower the counter's
    /// margin; the setters keep identifiers untouched instead.
    pub fn get_mut(&mut self, index: usize) -> (r: &mut Note)
        requires
            index < old(self)@.len(),
        ensures
            *r == old(self).notes@[index as int],
            final(self).notes@ == old(self).notes@.update(index as int, *final(r)),
            final(self).next_id == old(self).next_id,
    {
        &mut self.notes[index]
    }

    /// Adds a note at the end; nothing is persisted by this.
    pub fn append(&mut self, note: Note)
        requires
            old(self).wf(),
            note@.valid(),
        ensures
            final(self)@ == old(self)@.push(note@),
            final(self).next_id == if note@.id + 1 > old(self).next_id {
                note@.id + 1
            } else {
                old(self).next_id as int
            },
            final(self).wf(),
    {
        let id64: i64 = note.id as i64;
        if id64 >= self.next_id {
            self.next_id = id64 + 1;
        }
        let ghost before = self@;
        self.notes.push(note);
        proof {
            assert(self@ =~= before.push(note@));
        }
    }

    /// Replaces the title of the note at `index`, or reports
    /// `IndexOutOfRange` and changes nothing.
    pub fn set_title(&mut self, index: usize, title: String) -> (r: Result<(), NoteError>)
        ensures
            index < old(self)@.len() ==> r is Ok && final(self)@ == old(self)@.update(
                index as int,
                NoteView { title: title@, ..old(self)@[index as int] },
            ) && final(self).next_id == old(self).next_id,
            index >= old(self)@.len() ==> (r matches Err(e) && e == NoteError::IndexOutOfRange
                && *final(self) == *old(self)),
    {
        if index < self.notes.len() {
            let ghost before = self@;
            let slot = &mut self.notes[index];
            slot.title = title;
            proof {
                assert(self@ =~= before.update(
                    index as int,
                    NoteView { title: title@, ..before[index as int] },
                ));
            }
            Ok(())
        } else {
            Err(NoteError::IndexOutOfRange)
        }
    }

    /// Replaces the body text of the note at `index`, or reports
    /// `IndexOutOfRange` and changes nothing.
    pub fn set_text(&mut self, index: usize, text: String) -> (r: Result<(), NoteError>)
        ensures
            index < old(self)@.len() ==> r is Ok && final(self)@ == old(self)@.update(
                index as int,
                NoteView { text: text@, ..old(self)@[index as int] },
            ) && final(self).next_id == old(self).next_id,
            index >= old(self)@.len() ==> (r matches Err(e) && e == NoteError::IndexOutOfRange
                && *final(self) == *old(self)),
    {
        if index < self.notes.len() {
            let ghost before = self@;
            let slot = &mut self.notes[index];
            slot.text = text;
            proof {
                assert(self@ =~= before.update(
                    index as int,
                    NoteView { text: text@, ..before[index as int] },
                ));
            }
            Ok(())
        } else {
            Err(NoteError::IndexOutOfRange)
        }
    }

    /// Replaces the colour tag of the note at `index`, or reports
    /// `IndexOutOfRange` and changes nothing.
    pub fn set_color(&mut self, index: usize, color: Color) -> (r: Result<(), NoteError>)
        ensures
            index < old(self)@.len() ==> r is Ok && final(self)@ == old(self)@.update(
                index as int,
                NoteView { color, ..old(self)@[index as int] },
            ) && final(self).next_id == old(self).next_id,
            index >= old(self)@.len() ==> (r matches Err(e) && e == NoteError::IndexOutOfRange
                && *final(self) == *old(self)),
    {
        if index < self.notes.len() {
            let ghost before = self@;
            let slot = &mut self.notes[index];
            slot.color = color;
            proof {
                assert(self@ =~= before.update(
                    index as int,
                    NoteView { color, ..before[index as int] },
                ));
            }
            Ok(())
        } else {
            Err(NoteError::IndexOutOfRange)
        }
    }

    /// Replacing a field keeps the store well-formed: identifiers are
    /// untouched by the field setters.
    pub proof fn lemma_update_field_wf(self, other: NoteWarp, index: int, nv: NoteView)
        requires
            self.wf(),
            0 <= index < self@.len(),
            nv.id == self@[index].id,
            other@ == self@.update(index, nv),
            other.next_id == self.next_id,
        ensures
            other.wf(),
    {
        assert forall|i: int| 0 <= i < other@.len() implies
            0 <= (#[trigger] other@[i]).id < other.next_id by {
            if i != index {
                assert(other@[i] == self@[i]);
            }
        }
    }

    /// The whole current sequence as persisted text; writing it to disk is
    /// the shell's business.
    pub fn save(&self) -> (r: String)
        requires
            self.wf(),
        ensures
            r@ == spec_encode(self@),
    {
        save_notes(&self.notes)
    }

    /// A store read back from persisted text: exactly the notes the text
    /// encodes, or `DecodeError` for any other text.
    pub fn load(s: &str) -> (r: Result<NoteWarp, NoteError>)
        ensures
            match spec_decode(s@) {
                Some(ns) => r matches Ok(store) && store@ == ns && store.wf(),
                None => r matches Err(e) && e == NoteError::DecodeError,
            },
    {
        match load_notes(s) {
            Ok(notes) => Ok(NoteWarp::from_notes(notes)),
            Err(e) => Err(e),
        }
    }
}

/// After appending a note, the last position of the sequence holds exactly
/// that note: what `append` adds is what `get` at `length - 1` returns.
pub proof fn lemma_append_then_get(ns: Seq<NoteView>, n: NoteView)
    ensures
        ns.push(n).len() == ns.len() + 1,
        ns.push(n)[ns.len() as int] == n,
{
}

/// Changing one note and saving the whole sequence persists exactly that
/// change: the saved text reads back as the updated sequence, and nothing
/// else.
pub proof fn lemma_edit_then_save_persists(ns: Seq<NoteView>, index: int, nv: NoteView)
    requires
        all_valid(ns),
        0 <= index < ns.len(),
        nv.valid(),
    ensures
        spec_decode(spec_encode(ns.update(index, nv))) == Some(ns.update(index, nv)),
{
    let updated = ns.update(index, nv);
    assert(all_valid(updated)) by {
        assert forall|i: int| 0 <= i < updated.len() implies (#[trigger] updated[i]).valid() by {
            if i != index {
                assert(updated[i] == ns[i]);
            }
        }
    }
    crate::codec::lemma_decode_of_encode(updated);
}

} // verus!
