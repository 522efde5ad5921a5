use snow_treading::codec::{load_notes, save_notes};
use snow_treading::{Color, Note, NoteError, NoteWarp};

fn note(id: i32, title: &str, text: &str, color: Color, stamp: &str) -> Note {
    let mut n = Note::new(id, text.to_string(), title.to_string(), color);
    n.last_edited = stamp.to_string();
    n
}

fn assert_same_notes(a: &[Note], b: &[Note]) {
    assert_eq!(a.len(), b.len());
    for (x, y) in a.iter().zip(b.iter()) {
        assert_eq!(x.id, y.id);
        assert_eq!(x.title, y.title);
        assert_eq!(x.text, y.text);
        assert_eq!(x.last_edited, y.last_edited);
        assert_eq!(x.get_note_color(), y.get_note_color());
    }
}

#[test]
fn encode_one_note_exactly() {
    let notes = vec![note(
        7,
        "title",
        "body",
        Color { red: 1, green: 2, blue: 3 },
        "Mon, 01 Jan 2024 00:00:00 +0000",
    )];
    let s = save_notes(&notes);
    assert_eq!(
        s,
        "[{\"id\":7,\"title\":\"title\",\"text\":\"body\",\"color\":[1,2,3],\
         \"last_edited\":\"Mon, 01 Jan 2024 00:00:00 +0000\"}]"
    );
}

#[test]
fn encode_empty_list() {
    let notes: Vec<Note> = Vec::new();
    assert_eq!(save_notes(&notes), "[]");
    let loaded = load_notes("[]").unwrap();
    assert!(loaded.is_empty());
}

#[test]
fn round_trip_plain_notes() {
    let notes = vec![
        note(0, "first", "alpha", Color { red: 0, green: 0, blue: 0 }, "a"),
        note(1, "second", "beta", Color { red: 255, green: 255, blue: 255 }, "b"),
        note(2147483647, "third", "gamma", Color { red: 9, green: 8, blue: 7 }, "c"),
    ];
    let loaded = load_notes(&save_notes(&notes)).unwrap();
    assert_same_notes(&notes, &loaded);
}

#[test]
fn round_trip_special_characters() {
    let notes = vec![note(
        5,
        "quote \" backslash \\ done",
        "line one\nline two\ttabbed\rreturned",
        Color { red: 4, green: 5, blue: 6 },
        "stamp \"quoted\"",
    )];
    let loaded = load_notes(&save_notes(&notes)).unwrap();
    assert_same_notes(&notes, &loaded);
}

#[test]
fn round_trip_unicode() {
    let notes = vec![note(
        9,
        "h\u{e9}llo \u{2603}",
        "\u{65e5}\u{672c}\u{8a9e} text",
        Color { red: 1, green: 1, blue: 1 },
        "z",
    )];
    let loaded = load_notes(&save_notes(&notes)).unwrap();
    assert_same_notes(&notes, &loaded);
}

#[test]
fn save_of_load_reproduces_text() {
    let text = "[{\"id\":1,\"title\":\"A\",\"text\":\"\",\"color\":[0,0,0],\
                \"last_edited\":\"t\"}]";
    let loaded = load_notes(text).unwrap();
    assert_eq!(save_notes(&loaded), text);
}

#[test]
fn decode_rejects_malformed_text() {
    for bad in [
        "",
        "[",
        "]",
        "{}",
        "[{]",
        "[{\"id\":1}]",
        "[{\"id\":01,\"title\":\"\",\"text\":\"\",\"color\":[0,0,0],\"last_edited\":\"\"}]",
        "[{\"id\":-1,\"title\":\"\",\"text\":\"\",\"color\":[0,0,0],\"last_edited\":\"\"}]",
        "[{\"id\":2147483648,\"title\":\"\",\"text\":\"\",\"color\":[0,0,0],\"last_edited\":\"\"}]",
        "[{\"id\":1,\"title\":\"\",\"text\":\"\",\"color\":[256,0,0],\"last_edited\":\"\"}]",
        "[{\"id\":1,\"title\":\"\",\"text\":\"\",\"color\":[0,0],\"last_edited\":\"\"}]",
        "[{\"id\":1,\"title\":\"\\q\",\"text\":\"\",\"color\":[0,0,0],\"last_edited\":\"\"}]",
        "[{\"id\":1,\"title\":\"unterminated,\"text\":\"\",\"color\":[0,0,0],\"last_edited\":\"\"}]",
        "[{\"id\":1,\"title\":\"\",\"text\":\"\",\"color\":[0,0,0],\"last_edited\":\"\"}]x",
        "[{\"id\":1,\"title\":\"\",\"text\":\"\",\"color\":[0,0,0],\"last_edited\":\"\"},]",
        "[]extra",
        " []",
    ] {
        match load_notes(bad) {
            Err(NoteError::DecodeError) => {}
            other => panic!("expected DecodeError for {:?}, got {:?}", bad, other.map(|_| ())),
        }
    }
}

#[test]
fn decode_accepts_only_the_canonical_spacing() {
    // The encoder writes no spaces between fields; a reformatted file is a
    // different text and is re-written canonically on the next save.
    let spaced = "[ {\"id\":1,\"title\":\"\",\"text\":\"\",\"color\":[0,0,0],\"last_edited\":\"\"} ]";
    assert!(matches!(load_notes(spaced), Err(NoteError::DecodeError)));
}

#[test]
fn encoded_text_is_json_for_plain_values() {
    let notes = vec![note(
        7,
        "title",
        "body text",
        Color { red: 1, green: 2, blue: 3 },
        "Mon, 01 Jan 2024 00:00:00 +0000",
    )];
    let s = save_notes(&notes);
    let v: serde_json::Value = serde_json::from_str(&s).unwrap();
    assert_eq!(v[0]["id"].as_i64().unwrap(), 7);
    assert_eq!(v[0]["title"].as_str().unwrap(), "title");
    assert_eq!(v[0]["text"].as_str().unwrap(), "body text");
    assert_eq!(v[0]["color"][0].as_u64().unwrap(), 1);
    assert_eq!(v[0]["color"][1].as_u64().unwrap(), 2);
    assert_eq!(v[0]["color"][2].as_u64().unwrap(), 3);
    assert_eq!(
        v[0]["last_edited"].as_str().unwrap(),
        "Mon, 01 Jan 2024 00:00:00 +0000"
    );
}

#[test]
fn escapes_are_json_escapes() {
    let notes = vec![note(
        1,
        "q\" b\\ n\n r\r t\t",
        "",
        Color { red: 0, green: 0, blue: 0 },
        "s",
    )];
    let s = save_notes(&notes);
    let v: serde_json::Value = serde_json::from_str(&s).unwrap();
    assert_eq!(v[0]["title"].as_str().unwrap(), "q\" b\\ n\n r\r t\t");
}

#[test]
fn store_load_sets_counter_above_ids() {
    let notes = vec![
        note(5, "x", "", Color { red: 0, green: 0, blue: 0 }, "a"),
        note(2, "y", "", Color { red: 0, green: 0, blue: 0 }, "b"),
    ];
    let store = NoteWarp::load(&save_notes(&notes)).unwrap();
    assert_eq!(store.len(), 2);
    assert_eq!(store.next_id, 6);
}
