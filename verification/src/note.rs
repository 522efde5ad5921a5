//! The note record: one user document with an identifier, a title, a body,
//! a colour tag, and the timestamp taken when the note was created.

use vstd::prelude::*;
use vstd::string::StrSliceExecFns;
use crate::clock::now_rfc2822;

verus! {

/// The red, green and blue bytes of a note's colour tag.
#[derive(Clone, Copy, Debug, PartialEq, Eq, Structural)]
pub struct Color {
    pub red: u8,
    pub green: u8,
    pub blue: u8,
}

/// The mathematical content of a [`Note`]: the same fields, with the text
/// fields seen as character sequences.
pub struct NoteView {
    pub id: i32,
    pub title: Seq<char>,
    pub text: Seq<char>,
    pub last_edited: Seq<char>,
    pub color: Color,
}

impl NoteView {
    /// A note the store may hold: its identifier is non-negative.
    pub open spec fn valid(self) -> bool {
        self.id >= 0
    }
}

/// One user document.
#[derive(Debug, Clone)]
pub struct Note {
    /// Integer identifier; every note in a store has a non-negative one.
    pub id: i32,
    /// Title line, mutable.
    pub title: String,
    /// Free-form body text, mutable.
    pub text: String,
    /// Timestamp string, set at construction.
    pub last_edited: String,
    /// Colour tag used for visual grouping, mutable.
    pub color: Color,
}

impl View for Note {
    type V = NoteView;

    open spec fn view(&self) -> NoteView {
        NoteView {
            id: self.id,
            title: self.title@,
            text: self.text@,
            last_edited: self.last_edited@,
            color: self.color,
        }
    }
}

impl Note {
    /// Builds a note with the given fields and stamps `last_edited` with the
    /// present moment, about which nothing is known.
    pub fn new(id: i32, text: String, title: String, color: Color) -> (r: Note)
        ensures
            r.id == id,
            r.title@ == title@,
            r.text@ == text@,
            r.color == color,
    {
        Note { id, title, text, last_edited: now_rfc2822(), color }
    }

    /// The note's colour tag.
    pub fn get_note_color(&self) -> (c: Color)
        ensures
            c == self.color,
    {
        self.color
    }

    /// The short line under which the note is listed: its first characters,
    /// newlines left out, with a trailing ellipsis.
    pub fn preview(&self) -> (r: String)
        ensures
            r@ == preview_of(self.text@),
    {
        let text = self.text.as_str();
        let n = text.unicode_len();
        let mut out: Vec<char> = Vec::new();
        let mut i: usize = 0;
        let mut taken: usize = 0;
        proof {
            assert(text@.skip(0) =~= text@);
            assert(Seq::<char>::empty() + preview_core(text@, PREVIEW_LEN as nat)
                =~= preview_core(text@, PREVIEW_LEN as nat));
        }
        while i < n && taken < PREVIEW_LEN
            invariant
                i <= n,
                n == text@.len(),
                text@ == self.text@,
                taken <= PREVIEW_LEN,
                out@.len() == taken,
                preview_core(text@, PREVIEW_LEN as nat) == out@ + preview_core(
                    text@.skip(i as int),
                    (PREVIEW_LEN - taken) as nat,
                ),
            decreases n - i,
        {
            let c = text.get_char(i);
            let ghost sp = text@.skip(i as int);
            proof {
                assert(sp[0] == text@[i as int]);
                assert(sp.drop_first() =~= text@.skip(i + 1));
            }
            if c != '\n' {
                let ghost out0 = out@;
                out.push(c);
                taken += 1;
                proof {
                    vstd::seq_lib::lemma_concat_associative(
                        out0,
                        seq![c],
                        preview_core(text@.skip(i + 1), (PREVIEW_LEN - taken) as nat),
                    );
                    assert(out0 + seq![c] =~= out@);
                }
            }
            i += 1;
        }
        proof {
            if i == n {
                assert(text@.skip(i as int) =~= Seq::<char>::empty());
            }
            assert(preview_core(text@.skip(i as int), (PREVIEW_LEN - taken) as nat)
                == Seq::<char>::empty());
            assert(out@ =~= preview_core(text@, PREVIEW_LEN as nat));
        }
        out.push('.');
        out.push('.');
        out.push('.');
        proof {
            assert(out@ =~= preview_of(self.text@));
        }
        crate::codec::chars_to_string(out)
    }
}

/// How many characters of the body the listing shows.
pub const PREVIEW_LEN: usize = 80;

/// Up to `budget` characters of `text`, newlines left out.
pub open spec fn preview_core(text: Seq<char>, budget: nat) -> Seq<char>
    decreases text.len(),
{
    if text.len() == 0 || budget == 0 {
        Seq::empty()
    } else if text[0] == '\n' {
        preview_core(text.drop_first(), budget)
    } else {
        seq![text[0]] + preview_core(text.drop_first(), (budget - 1) as nat)
    }
}

/// The listing line for a body text: its first characters, newlines left
/// out, with a trailing ellipsis.
pub open spec fn preview_of(text: Seq<char>) -> Seq<char> {
    preview_core(text, PREVIEW_LEN as nat) + seq!['.', '.', '.']
}

} // verus!
