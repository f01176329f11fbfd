use editcore::Document;
use editcore::HighlightKind;
use editcore::Position;
use editcore::SearchDirection;

fn row_text(d: &Document, y: usize) -> String {
    d.row(y).expect("row missing").text()
}

#[test]
fn open_splits_lines() {
    let d = Document::open("alpha\nbeta\ngamma\n", "notes.txt");
    assert_eq!(d.len(), 3);
    assert_eq!(row_text(&d, 0), "alpha");
    assert_eq!(row_text(&d, 1), "beta");
    assert_eq!(row_text(&d, 2), "gamma");
    assert!(!d.is_empty());
    assert!(!d.is_dirty());
}

#[test]
fn open_without_trailing_newline() {
    let d = Document::open("alpha\nbeta", "notes.txt");
    assert_eq!(d.len(), 2);
    assert_eq!(row_text(&d, 1), "beta");
}

#[test]
fn open_empty_text() {
    let d = Document::open("", "notes.txt");
    assert_eq!(d.len(), 0);
    assert!(d.is_empty());
    assert!(d.row(0).is_none());
}

#[test]
fn file_type_from_extension() {
    let d = Document::open("fn main() {}\n", "main.rs");
    assert_eq!(d.file_type(), "Rust");
    let d2 = Document::open("plain text\n", "readme.md");
    assert_eq!(d2.file_type(), "No filetype");
}

#[test]
fn save_then_open_round_trip() {
    let mut d = Document::open("one\ntwo\nthree\n", "notes.txt");
    d.insert(&Position { x: 3, y: 0 }, '!');
    let text = d.save_text();
    assert_eq!(text, "one!\ntwo\nthree\n");
    let reopened = Document::open(&text, "notes.txt");
    assert_eq!(reopened.len(), d.len());
    for y in 0..d.len() {
        assert_eq!(row_text(&reopened, y), row_text(&d, y));
    }
}

#[test]
fn insert_plain_character() {
    let mut d = Document::open("abc\n", "notes.txt");
    d.insert(&Position { x: 1, y: 0 }, 'X');
    assert_eq!(row_text(&d, 0), "aXbc");
    assert!(d.is_dirty());
}

#[test]
fn insert_past_last_row_appends() {
    let mut d = Document::open("abc\n", "notes.txt");
    d.insert(&Position { x: 0, y: 1 }, 'z');
    assert_eq!(d.len(), 2);
    assert_eq!(row_text(&d, 1), "z");
}

#[test]
fn insert_out_of_range_is_noop() {
    let mut d = Document::open("abc\n", "notes.txt");
    d.insert(&Position { x: 0, y: 5 }, 'z');
    assert_eq!(d.len(), 1);
    assert_eq!(row_text(&d, 0), "abc");
    assert!(!d.is_dirty());
}

#[test]
fn insert_newline_splits_row() {
    let mut d = Document::open("hello world\n", "notes.txt");
    d.insert(&Position { x: 5, y: 0 }, '\n');
    assert_eq!(d.len(), 2);
    assert_eq!(row_text(&d, 0), "hello");
    assert_eq!(row_text(&d, 1), " world");
}

#[test]
fn insert_newline_at_document_end_appends_empty_row() {
    let mut d = Document::open("abc\n", "notes.txt");
    d.insert(&Position { x: 0, y: 1 }, '\n');
    assert_eq!(d.len(), 2);
    assert_eq!(row_text(&d, 1), "");
}

#[test]
fn delete_character() {
    let mut d = Document::open("abc\n", "notes.txt");
    d.delete(&Position { x: 1, y: 0 });
    assert_eq!(row_text(&d, 0), "ac");
    assert!(d.is_dirty());
}

#[test]
fn delete_at_row_end_merges_next_row() {
    let mut d = Document::open("ab\ncd\n", "notes.txt");
    d.delete(&Position { x: 2, y: 0 });
    assert_eq!(d.len(), 1);
    assert_eq!(row_text(&d, 0), "abcd");
}

#[test]
fn delete_boundary_last_row_is_noop() {
    let mut d = Document::open("ab\ncd\n", "notes.txt");
    d.delete(&Position { x: 2, y: 1 });
    assert_eq!(d.len(), 2);
    assert_eq!(row_text(&d, 0), "ab");
    assert_eq!(row_text(&d, 1), "cd");
}

#[test]
fn delete_out_of_range_is_noop() {
    let mut d = Document::open("ab\n", "notes.txt");
    d.delete(&Position { x: 0, y: 7 });
    assert_eq!(d.len(), 1);
    assert!(!d.is_dirty());
}

#[test]
fn insert_then_delete_restores_rows() {
    let mut d = Document::open("hello\nworld\n", "notes.txt");
    d.insert(&Position { x: 2, y: 1 }, 'x');
    assert_eq!(row_text(&d, 1), "woxrld");
    d.delete(&Position { x: 2, y: 1 });
    assert_eq!(d.len(), 2);
    assert_eq!(row_text(&d, 0), "hello");
    assert_eq!(row_text(&d, 1), "world");
}

#[test]
fn newline_then_delete_restores_rows() {
    let mut d = Document::open("hello world\n", "notes.txt");
    d.insert(&Position { x: 5, y: 0 }, '\n');
    assert_eq!(d.len(), 2);
    d.delete(&Position { x: 5, y: 0 });
    assert_eq!(d.len(), 1);
    assert_eq!(row_text(&d, 0), "hello world");
}

#[test]
fn highlight_length_matches_content_after_edits() {
    let mut d = Document::open("fn main() {\n    let x = 1;\n}\n", "main.rs");
    d.insert(&Position { x: 0, y: 1 }, 'z');
    d.insert(&Position { x: 4, y: 1 }, '\n');
    d.delete(&Position { x: 0, y: 0 });
    d.delete(&Position { x: 2, y: 2 });
    for y in 0..d.len() {
        let row = d.row(y).unwrap();
        assert_eq!(row.highlights().len(), row.chars().len());
    }
}

#[test]
fn highlight_twice_is_idempotent() {
    let mut d = Document::open("fn main() { /* c */ \"s\" 42 }\n", "main.rs");
    d.highlight(None);
    let first: Vec<Vec<HighlightKind>> =
        (0..d.len()).map(|y| d.row(y).unwrap().highlights().clone()).collect();
    d.highlight(None);
    let second: Vec<Vec<HighlightKind>> =
        (0..d.len()).map(|y| d.row(y).unwrap().highlights().clone()).collect();
    assert_eq!(first, second);
}

#[test]
fn multiline_comment_propagates_across_rows() {
    let d = Document::open("/* start\nstill in comment */\ncode\n", "main.rs");
    let r0 = d.row(0).unwrap();
    assert!(r0.highlights().iter().all(|k| *k == HighlightKind::MultiComment));
    let r1 = d.row(1).unwrap();
    assert!(r1.highlights().iter().all(|k| *k == HighlightKind::MultiComment));
    let r2 = d.row(2).unwrap();
    assert!(r2.highlights().iter().all(|k| *k != HighlightKind::MultiComment));
}

#[test]
fn multiline_comment_close_returns_to_default() {
    let d = Document::open("/* c */ after\n", "main.rs");
    let r0 = d.row(0).unwrap();
    let tags = r0.highlights();
    for i in 0..7 {
        assert_eq!(tags[i], HighlightKind::MultiComment);
    }
    for i in 7..tags.len() {
        assert_ne!(tags[i], HighlightKind::MultiComment);
    }
}

#[test]
fn find_forward_example() {
    let d = Document::open("foo bar\nbar baz\n", "notes.txt");
    let hit = d.find("bar", &Position { x: 0, y: 0 }, SearchDirection::Forward);
    let p = hit.expect("expected a match");
    assert_eq!((p.x, p.y), (4, 0));
    let hit2 = d.find("bar", &Position { x: 5, y: 0 }, SearchDirection::Forward);
    let p2 = hit2.expect("expected a match");
    assert_eq!((p2.x, p2.y), (0, 1));
    assert!(d.find("qux", &Position { x: 0, y: 0 }, SearchDirection::Forward).is_none());
}

#[test]
fn find_backward() {
    let d = Document::open("foo bar\nbar baz\n", "notes.txt");
    let hit = d.find("bar", &Position { x: 7, y: 1 }, SearchDirection::Backward);
    let p = hit.expect("expected a match");
    assert_eq!((p.x, p.y), (0, 1));
    let hit2 = d.find("foo", &Position { x: 7, y: 1 }, SearchDirection::Backward);
    let p2 = hit2.expect("expected a match");
    assert_eq!((p2.x, p2.y), (0, 0));
}

#[test]
fn find_out_of_range_start_is_none() {
    let d = Document::open("abc\n", "notes.txt");
    assert!(d.find("a", &Position { x: 0, y: 9 }, SearchDirection::Forward).is_none());
}

#[test]
fn dirty_tracking_lifecycle() {
    let mut d = Document::open("abc\n", "notes.txt");
    assert!(!d.is_dirty());
    d.insert(&Position { x: 0, y: 0 }, 'q');
    assert!(d.is_dirty());
    let _text = d.save_text();
    assert!(d.is_dirty(), "producing the text alone must not clean the buffer");
    d.mark_saved();
    assert!(!d.is_dirty());
    d.delete(&Position { x: 0, y: 0 });
    assert!(d.is_dirty());
}

#[test]
fn mark_saved_without_name_keeps_dirty() {
    let mut d = Document::default();
    d.insert(&Position { x: 0, y: 0 }, 'a');
    assert!(d.is_dirty());
    d.mark_saved();
    assert!(d.is_dirty());
}

#[test]
fn search_overlay_is_transient() {
    let mut d = Document::open("foo bar\n", "notes.txt");
    d.highlight(Some("bar"));
    let tags = d.row(0).unwrap().highlights().clone();
    assert_eq!(tags[4], HighlightKind::SearchMatch);
    assert_eq!(tags[5], HighlightKind::SearchMatch);
    assert_eq!(tags[6], HighlightKind::SearchMatch);
    assert_ne!(tags[0], HighlightKind::SearchMatch);
    d.highlight(None);
    let cleared = d.row(0).unwrap().highlights().clone();
    assert!(cleared.iter().all(|k| *k != HighlightKind::SearchMatch));
}

#[test]
fn default_document_is_empty_and_clean() {
    let d = Document::default();
    assert!(d.is_empty());
    assert_eq!(d.len(), 0);
    assert!(!d.is_dirty());
    assert!(d.file_name.is_none());
    assert_eq!(d.file_type(), "No filetype");
}
