use bibbo::editor::{has_visible_char, Commit, Editor, Note, NoteRow, PALETTE_LEN};

fn row(id: i64, title: &str, body: &str, color_idx: i64) -> NoteRow {
    NoteRow { id, title: title.to_string(), body: body.to_string(), color_idx }
}

fn loaded() -> Editor {
    Editor::load(vec![row(10, "First", "one", 0), row(11, "Second", "two words", 9), row(12, "Third", "", -1)])
}

#[test]
fn load_reads_colors_modulo_palette() {
    let e = loaded();
    let colors: Vec<usize> = e.notes().iter().map(|n| n.color).collect();
    assert_eq!(colors, vec![0, 1, 7]);
    assert_eq!(e.color_idx(), 3);
    assert!(!e.is_modal());
    assert_eq!(e.editing(), None);
    assert_eq!(e.draft_title(), "");
    assert_eq!(e.draft_body(), "");
    let empty = Editor::load(Vec::new());
    assert!(empty.shows_hint());
    assert!(!e.shows_hint());
}

#[test]
fn ctrl_n_opens_empty_overlay_once() {
    let mut e = loaded();
    e.request_new();
    assert!(e.is_modal());
    assert!(e.take_title_focus());
    assert!(!e.take_title_focus());
    e.set_drafts("Draft".to_string(), "text".to_string());
    e.request_new();
    assert_eq!(e.draft_title(), "Draft");
    assert_eq!(e.draft_body(), "text");
}

#[test]
fn new_note_is_inserted_with_next_color() {
    let mut e = loaded();
    e.request_new();
    e.set_drafts("  New idea ".to_string(), "body text".to_string());
    let c = e.finish(true, false);
    match c {
        Some(Commit::Insert { title, body, color }) => {
            assert_eq!(title, "New idea");
            assert_eq!(body, "body text");
            assert_eq!(color, 3);
            e.add_note(Note { id: 13, title, body, color });
        }
        _ => panic!("expected an insert"),
    }
    assert_eq!(e.color_idx(), 4);
    assert!(!e.is_modal());
    assert_eq!(e.draft_body(), "");
    assert_eq!(e.draft_title(), "  New idea ");
    assert_eq!(e.notes().len(), 4);
    assert_eq!(e.notes()[3].id, 13);
}

#[test]
fn palette_cursor_wraps() {
    let mut e = Editor::load(Vec::new());
    let mut seen = Vec::new();
    for i in 0..(PALETTE_LEN + 2) {
        e.request_new();
        e.set_drafts(format!("n{}", i), String::new());
        if let Some(Commit::Insert { title, body, color }) = e.finish(true, false) {
            seen.push(color);
            e.add_note(Note { id: i as i64, title, body, color });
        } else {
            panic!("expected an insert");
        }
    }
    assert_eq!(seen, vec![0, 1, 2, 3, 4, 5, 6, 7, 0, 1]);
}

#[test]
fn edit_round_trip() {
    let mut e = loaded();
    e.open_edit(11);
    assert!(e.is_modal());
    assert_eq!(e.editing(), Some(11));
    assert_eq!(e.draft_title(), "Second");
    assert_eq!(e.draft_body(), "two words");
    assert!(e.body_takes_focus());
    assert!(!e.take_title_focus());
    assert_eq!(e.draft_word_count(), 2);
    e.set_drafts(" Renamed\t".to_string(), "new body".to_string());
    match e.finish(true, false) {
        Some(Commit::Update { id, title, body }) => {
            assert_eq!(id, 11);
            assert_eq!(title, "Renamed");
            assert_eq!(body, "new body");
        }
        _ => panic!("expected an update"),
    }
    assert_eq!(e.notes()[1].title, "Renamed");
    assert_eq!(e.notes()[1].body, "new body");
    assert_eq!(e.notes()[1].color, 1);
    assert_eq!(e.notes()[0].title, "First");
    assert_eq!(e.color_idx(), 3);
    e.open_edit(11);
    assert_eq!(e.draft_title(), "Renamed");
    assert_eq!(e.draft_body(), "new body");
}

#[test]
fn open_edit_of_unknown_id_does_nothing() {
    let mut e = loaded();
    e.open_edit(99);
    assert!(!e.is_modal());
    assert_eq!(e.editing(), None);
}

#[test]
fn blank_title_is_not_saved() {
    let mut e = loaded();
    e.request_new();
    e.set_drafts(" \t ".to_string(), "body".to_string());
    assert!(e.finish(true, false).is_none());
    assert!(e.is_modal());
    assert_eq!(e.notes().len(), 3);
    assert!(!has_visible_char(&" \n".to_string()));
    assert!(has_visible_char(&" x ".to_string()));
}

#[test]
fn escape_saves_and_returns() {
    let mut e = loaded();
    e.open_edit(10);
    e.set_drafts(" First, revised ".to_string(), "one more".to_string());
    match e.finish(false, true) {
        Some(Commit::Update { id, title, body }) => {
            assert_eq!(id, 10);
            assert_eq!(title, "First, revised");
            assert_eq!(body, "one more");
        }
        _ => panic!("expected an update"),
    }
    assert!(!e.is_modal());
    assert_eq!(e.editing(), None);
    assert_eq!(e.notes()[0].title, "First, revised");
    // Closed overlay: the keys do nothing.
    assert!(e.finish(true, true).is_none());
}

#[test]
fn escape_on_new_note_inserts() {
    let mut e = loaded();
    e.request_new();
    e.set_drafts("Fresh".to_string(), "b".to_string());
    assert!(matches!(e.finish(false, true), Some(Commit::Insert { color: 3, .. })));
    assert!(!e.is_modal());
    assert_eq!(e.color_idx(), 4);
}

#[test]
fn escape_with_blank_title_only_closes() {
    let mut e = loaded();
    e.request_new();
    e.set_drafts("   ".to_string(), "lost".to_string());
    assert!(e.finish(false, true).is_none());
    assert!(!e.is_modal());
    assert_eq!(e.notes().len(), 3);
    assert_eq!(e.color_idx(), 3);
}

#[test]
fn save_and_escape_together_commit_once_then_close() {
    let mut e = loaded();
    e.open_edit(12);
    e.set_drafts("Third!".to_string(), "x".to_string());
    assert!(matches!(e.finish(true, true), Some(Commit::Update { id: 12, .. })));
    assert!(!e.is_modal());
    assert_eq!(e.notes()[2].title, "Third!");
}

#[test]
fn first_click_selects_second_click_opens() {
    let mut e = loaded();
    assert_eq!(e.selected(), None);
    e.click_note(11);
    assert_eq!(e.selected(), Some(11));
    assert!(!e.is_modal());
    e.click_note(10);
    assert_eq!(e.selected(), Some(10));
    assert!(!e.is_modal());
    e.click_note(10);
    assert!(e.is_modal());
    assert_eq!(e.editing(), Some(10));
    assert_eq!(e.draft_title(), "First");
    assert_eq!(e.draft_body(), "one");
    // A click that ends while the overlay is open moves it to that note.
    e.click_note(11);
    assert_eq!(e.selected(), Some(10));
    assert!(e.is_modal());
    assert_eq!(e.editing(), Some(11));
    assert_eq!(e.draft_title(), "Second");
}

#[test]
fn click_on_unknown_note_does_nothing() {
    let mut e = loaded();
    e.click_note(99);
    assert_eq!(e.selected(), None);
    assert!(!e.is_modal());
}

#[test]
fn commit_without_overlay_state_inserts() {
    let mut e = loaded();
    e.set_drafts("Direct".to_string(), "b".to_string());
    match e.commit() {
        Commit::Insert { title, color, .. } => {
            assert_eq!(title, "Direct");
            assert_eq!(color, 3);
        }
        _ => panic!("expected an insert"),
    }
}
