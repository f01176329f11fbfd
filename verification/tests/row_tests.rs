use editcore::FileType;
use editcore::HighlightKind;
use editcore::Row;
use editcore::SearchDirection;

#[test]
fn row_insert_and_delete() {
    let mut r = Row::from("abc");
    r.insert(1, 'x');
    assert_eq!(r.text(), "axbc");
    r.delete(1);
    assert_eq!(r.text(), "abc");
    r.insert(99, 'z');
    assert_eq!(r.text(), "abcz");
    r.delete(99);
    assert_eq!(r.text(), "abcz");
    assert_eq!(r.len(), 4);
}

#[test]
fn row_append_and_split() {
    let mut r = Row::from("hello world");
    let tail = r.split(5);
    assert_eq!(r.text(), "hello");
    assert_eq!(tail.text(), " world");
    r.append(&tail);
    assert_eq!(r.text(), "hello world");
    let empty_tail = r.split(100);
    assert_eq!(r.text(), "hello world");
    assert_eq!(empty_tail.text(), "");
}

#[test]
fn row_find_forward_and_backward() {
    let r = Row::from("foo bar foo");
    assert_eq!(r.find("foo", 0, SearchDirection::Forward), Some(0));
    assert_eq!(r.find("foo", 1, SearchDirection::Forward), Some(8));
    assert_eq!(r.find("foo", 9, SearchDirection::Forward), None);
    assert_eq!(r.find("foo", 10, SearchDirection::Backward), Some(8));
    assert_eq!(r.find("foo", 7, SearchDirection::Backward), Some(0));
    assert_eq!(r.find("zap", 10, SearchDirection::Backward), None);
}

#[test]
fn row_render_clamps_and_replaces_tabs() {
    let r = Row::from("a\tb");
    assert_eq!(r.render(0, 3), "a b");
    assert_eq!(r.render(1, 2), " ");
    assert_eq!(r.render(2, 99), "b");
    assert_eq!(r.render(5, 2), "");
}

#[test]
fn row_highlight_kinds_for_rust_profile() {
    let ft = FileType::from("x.rs");
    let opts = ft.highlighting_options();
    let mut r = Row::from("fn x = \"s\" + 42 // c");
    let cont = r.highlight(opts, None, false);
    assert!(!cont);
    let tags = r.highlights();
    assert_eq!(tags.len(), r.len());
    assert_eq!(tags[0], HighlightKind::PrimaryKeyword);
    assert_eq!(tags[1], HighlightKind::PrimaryKeyword);
    assert_eq!(tags[2], HighlightKind::Plain);
    assert_eq!(tags[7], HighlightKind::Quoted);
    assert_eq!(tags[8], HighlightKind::Quoted);
    assert_eq!(tags[9], HighlightKind::Quoted);
    assert_eq!(tags[13], HighlightKind::Number);
    assert_eq!(tags[14], HighlightKind::Number);
    for i in 16..r.len() {
        assert_eq!(tags[i], HighlightKind::Comment);
    }
}

#[test]
fn row_highlight_secondary_keyword_and_continuation() {
    let ft = FileType::from("x.rs");
    let opts = ft.highlighting_options();
    let mut r = Row::from("usize /* open");
    let cont = r.highlight(opts, None, false);
    assert!(cont, "row ends inside an unterminated block comment");
    let tags = r.highlights();
    for i in 0..5 {
        assert_eq!(tags[i], HighlightKind::SecondaryKeyword);
    }
    for i in 6..r.len() {
        assert_eq!(tags[i], HighlightKind::MultiComment);
    }
    let mut r2 = Row::from("still */ x");
    r2.highlight(opts, None, cont);
    let tags2 = r2.highlights();
    for i in 0..8 {
        assert_eq!(tags2[i], HighlightKind::MultiComment);
    }
    assert_eq!(tags2[9], HighlightKind::Plain);
}

#[test]
fn row_highlight_unterminated_string_stays_on_row() {
    let ft = FileType::from("x.rs");
    let opts = ft.highlighting_options();
    let mut r = Row::from("a \"unterminated");
    let cont = r.highlight(opts, None, false);
    assert!(!cont, "only multi-line comment state carries to the next row");
    let tags = r.highlights();
    for i in 2..r.len() {
        assert_eq!(tags[i], HighlightKind::Quoted);
    }
}

#[test]
fn row_highlight_markers_inert_inside_string() {
    let ft = FileType::from("x.rs");
    let opts = ft.highlighting_options();
    let mut r = Row::from("\"/* not a comment */\"");
    r.highlight(opts, None, false);
    assert!(r.highlights().iter().all(|k| *k == HighlightKind::Quoted));
}

#[test]
fn plain_profile_highlights_nothing() {
    let ft = FileType::from("notes.txt");
    assert_eq!(ft.name(), "No filetype");
    let opts = ft.highlighting_options();
    let mut r = Row::from("fn \"x\" 42 // c");
    r.highlight(opts, None, false);
    assert!(r.highlights().iter().all(|k| *k == HighlightKind::Plain));
}

#[test]
fn rust_profile_name() {
    let ft = FileType::from("lib.rs");
    assert_eq!(ft.name(), "Rust");
}
