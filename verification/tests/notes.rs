use snow_treading::{Color, Note, NoteError};

fn assert_note_fields(n: &Note, id: i32, title: &str, text: &str, color: Color) {
    assert_eq!(n.id, id);
    assert_eq!(n.title, title);
    assert_eq!(n.text, text);
    assert_eq!(n.get_note_color(), color);
}

#[test]
fn new_sets_fields() {
    let n = Note::new(
        3,
        "body".to_string(),
        "head".to_string(),
        Color { red: 10, green: 20, blue: 30 },
    );
    assert_note_fields(&n, 3, "head", "body", Color { red: 10, green: 20, blue: 30 });
}

#[test]
fn new_stamps_last_edited() {
    let n = Note::new(1, String::new(), String::new(), Color { red: 0, green: 0, blue: 0 });
    // An RFC 2822 stamp is never empty.
    assert!(!n.last_edited.is_empty());
}

#[test]
fn preview_short_text() {
    let mut n = Note::new(1, "hello".to_string(), String::new(), Color { red: 0, green: 0, blue: 0 });
    assert_eq!(n.preview(), "hello...");
    n.text = String::new();
    assert_eq!(n.preview(), "...");
}

#[test]
fn preview_strips_newlines() {
    let n = Note::new(
        1,
        "one\ntwo\nthree".to_string(),
        String::new(),
        Color { red: 0, green: 0, blue: 0 },
    );
    assert_eq!(n.preview(), "onetwothree...");
}

#[test]
fn preview_cuts_at_eighty() {
    let n = Note::new(1, "a".repeat(100), String::new(), Color { red: 0, green: 0, blue: 0 });
    let expected = format!("{}...", "a".repeat(80));
    assert_eq!(n.preview(), expected);
}

#[test]
fn preview_counts_kept_characters_only() {
    // 50 newlines followed by 90 letters: the newlines do not use up the
    // 80-character budget.
    let n = Note::new(
        1,
        format!("{}{}", "\n".repeat(50), "b".repeat(90)),
        String::new(),
        Color { red: 0, green: 0, blue: 0 },
    );
    let expected = format!("{}...", "b".repeat(80));
    assert_eq!(n.preview(), expected);
}

#[test]
fn error_messages() {
    assert_eq!(
        NoteError::IOError.message(),
        "could not read or write the note file"
    );
    assert_eq!(
        NoteError::DecodeError.message(),
        "the note file is not well-formed"
    );
    assert_eq!(
        NoteError::IndexOutOfRange.message(),
        "no note exists at that index"
    );
}
