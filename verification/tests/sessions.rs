use snow_treading::codec::load_notes;
use snow_treading::{AppConfig, Color, EditorSession, Note, NoteError, NoteWarp, SnowApp};

fn note(id: i32, title: &str) -> Note {
    let mut n = Note::new(
        id,
        String::new(),
        title.to_string(),
        Color { red: 0, green: 0, blue: 0 },
    );
    n.last_edited = format!("stamp-{}", id);
    n
}

#[test]
fn append_then_get_returns_the_note() {
    let mut store = NoteWarp::new();
    store.append(note(1, "A"));
    store.append(note(2, "B"));
    let appended = note(3, "C");
    store.append(Note {
        id: appended.id,
        title: appended.title.clone(),
        text: appended.text.clone(),
        last_edited: appended.last_edited.clone(),
        color: appended.get_note_color(),
    });
    let got = store.get(store.len() - 1).unwrap();
    assert_eq!(got.id, appended.id);
    assert_eq!(got.title, appended.title);
    assert_eq!(got.text, appended.text);
    assert_eq!(got.last_edited, appended.last_edited);
    assert_eq!(got.get_note_color(), appended.get_note_color());
}

#[test]
fn get_out_of_range_fails_on_every_store() {
    let empty = NoteWarp::new();
    assert!(matches!(empty.get(0), Err(NoteError::IndexOutOfRange)));
    let mut store = NoteWarp::new();
    store.append(note(1, "A"));
    store.append(note(2, "B"));
    assert!(store.get(1).is_ok());
    assert!(matches!(store.get(2), Err(NoteError::IndexOutOfRange)));
    assert!(matches!(store.get(100), Err(NoteError::IndexOutOfRange)));
}

#[test]
fn session_starts_closed() {
    let session = EditorSession::new();
    assert!(!session.is_open());
    assert!(session.current_index().is_none());
    let app = SnowApp::new(AppConfig::new(), Vec::new());
    assert!(!app.session.is_open());
}

#[test]
fn open_then_close_leaves_store_untouched() {
    let mut app = SnowApp::new(AppConfig::new(), vec![note(1, "A"), note(2, "B")]);
    let before = app.save_editor();
    app.select_note(1).unwrap();
    assert!(app.session.is_open());
    assert_eq!(app.session.current_index(), Some(1));
    app.close_editor();
    assert!(!app.session.is_open());
    assert_eq!(app.save_editor(), before);
}

#[test]
fn open_edit_save_persists_and_closes() {
    let mut app = SnowApp::new(AppConfig::new(), vec![note(1, "A"), note(2, "B")]);
    app.select_note(0).unwrap();
    assert!(app.edit_text("edited body".to_string()));
    let saved = app.save_editor();
    assert!(!app.session.is_open());
    let reloaded = load_notes(&saved).unwrap();
    assert_eq!(reloaded[0].text, "edited body");
    assert_eq!(reloaded[1].title, "B");
}

#[test]
fn retitle_one_note_and_reload() {
    // Two notes; open the second, retitle it, save, read the file back:
    // only that title changed.
    let mut app = SnowApp::new(AppConfig::new(), vec![note(1, "A"), note(2, "B")]);
    app.select_note(1).unwrap();
    assert!(app.edit_title("B2".to_string()));
    let saved = app.save_editor();
    let reloaded = load_notes(&saved).unwrap();
    assert_eq!(reloaded.len(), 2);
    assert_eq!(reloaded[0].id, 1);
    assert_eq!(reloaded[0].title, "A");
    assert_eq!(reloaded[1].id, 2);
    assert_eq!(reloaded[1].title, "B2");
}

#[test]
fn create_note_on_empty_store() {
    let mut app = SnowApp::new(AppConfig::new(), Vec::new());
    let index = app.create_note().unwrap();
    assert_eq!(index, 0);
    assert_eq!(app.note_warp.len(), 1);
    assert!(app.session.is_open());
    assert_eq!(app.session.current_index(), Some(0));
    let fresh = app.note_warp.get(0).unwrap();
    assert_eq!(fresh.id, 0);
    assert_eq!(fresh.title, "");
    assert_eq!(fresh.text, "");
}

#[test]
fn created_ids_never_repeat() {
    let mut app = SnowApp::new(AppConfig::new(), vec![note(5, "A")]);
    let i1 = app.create_note().unwrap();
    let i2 = app.create_note().unwrap();
    let id1 = app.note_warp.get(i1).unwrap().id;
    let id2 = app.note_warp.get(i2).unwrap().id;
    assert_eq!(id1, 6);
    assert_eq!(id2, 7);
}

#[test]
fn select_note_out_of_range_fails() {
    let mut app = SnowApp::new(AppConfig::new(), vec![note(1, "A")]);
    assert!(matches!(app.select_note(1), Err(NoteError::IndexOutOfRange)));
    assert!(!app.session.is_open());
    assert!(app.select_note(0).is_ok());
}

#[test]
fn edits_without_an_open_session_do_nothing() {
    let mut app = SnowApp::new(AppConfig::new(), vec![note(1, "A")]);
    let before = app.save_editor();
    assert!(!app.edit_title("X".to_string()));
    assert!(!app.edit_text("Y".to_string()));
    assert!(!app.edit_color(Color { red: 9, green: 9, blue: 9 }));
    assert_eq!(app.save_editor(), before);
}

#[test]
fn edit_color_reaches_the_store() {
    let mut app = SnowApp::new(AppConfig::new(), vec![note(1, "A")]);
    app.select_note(0).unwrap();
    assert!(app.edit_color(Color { red: 7, green: 8, blue: 9 }));
    let saved = app.save_editor();
    let reloaded = load_notes(&saved).unwrap();
    assert_eq!(reloaded[0].get_note_color(), Color { red: 7, green: 8, blue: 9 });
}

#[test]
fn config_defaults_and_toggles() {
    let c = AppConfig::new();
    assert!(c.dark_mode);
    assert!(c.bookmark_panel);
    assert_eq!(AppConfig::default(), c);
    let mut app = SnowApp::new(c, Vec::new());
    app.toggle_theme();
    assert!(!app.config.dark_mode);
    assert!(app.config.bookmark_panel);
    app.toggle_bookmarks();
    assert!(!app.config.bookmark_panel);
    app.toggle_theme();
    assert!(app.config.dark_mode);
}

#[test]
fn sequence_lists_in_insertion_order() {
    let mut store = NoteWarp::new();
    store.append(note(1, "A"));
    store.append(note(2, "B"));
    let titles: Vec<&str> = store.sequence().iter().map(|n| n.title.as_str()).collect();
    assert_eq!(titles, vec!["A", "B"]);
}

#[test]
fn get_mut_edits_in_place() {
    let mut store = NoteWarp::new();
    store.append(note(1, "A"));
    store.get_mut(0).title = "A2".to_string();
    assert_eq!(store.get(0).unwrap().title, "A2");
}

#[test]
fn setters_out_of_range_fail() {
    let mut store = NoteWarp::new();
    assert!(matches!(
        store.set_title(0, "X".to_string()),
        Err(NoteError::IndexOutOfRange)
    ));
    assert!(matches!(
        store.set_text(0, "X".to_string()),
        Err(NoteError::IndexOutOfRange)
    ));
    assert!(matches!(
        store.set_color(0, Color { red: 0, green: 0, blue: 0 }),
        Err(NoteError::IndexOutOfRange)
    ));
}
