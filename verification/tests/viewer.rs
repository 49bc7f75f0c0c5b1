use detection::viewer;
use detection::viewer::Viewer;
use detection::viewer::ViewerMessage;

#[test]
fn new_viewer_shows_placeholders() {
    let v = Viewer::new();
    assert_eq!(v.title(), "Viewer");
    assert_eq!(v.image_path(), "cardback.jpg");
    assert_eq!(v.score_text(), "--");
    assert_eq!(v.symbol_path(), "templates/--.svg");
}

#[test]
fn poll_with_a_match_replaces_what_is_shown() {
    let mut v = Viewer::new();
    v.update(
        ViewerMessage::Poll,
        Some((Some(String::from("dataset/a.png")), Some(17), Some(String::from("cpa")))),
    );
    assert_eq!(v.image_path(), "dataset/a.png");
    assert_eq!(v.score_text(), "17");
    assert_eq!(v.symbol_path(), "templates/cpa.svg");
    v.update(ViewerMessage::Poll, Some((Some(String::from("dataset/b.png")), Some(0), None)));
    assert_eq!(v.image_path(), "dataset/b.png");
    assert_eq!(v.score_text(), "0");
    assert_eq!(v.symbol_path(), "templates/--.svg");
}

#[test]
fn poll_without_a_match_keeps_what_is_shown() {
    let mut v = Viewer::new();
    v.update(ViewerMessage::Poll, Some((Some(String::from("dataset/a.png")), Some(3), None)));
    v.update(ViewerMessage::Poll, None);
    assert_eq!(v.image_path(), "dataset/a.png");
    assert_eq!(v.score_text(), "3");
}

#[test]
fn numbers_are_written_in_decimal() {
    assert_eq!(viewer::decimal_text(0), "0");
    assert_eq!(viewer::decimal_text(9), "9");
    assert_eq!(viewer::decimal_text(10), "10");
    assert_eq!(viewer::decimal_text(256), "256");
    assert_eq!(viewer::decimal_text(1000000), "1000000");
    assert_eq!(viewer::decimal_text(u32::MAX), "4294967295");
    for n in [7u32, 42, 99, 100, 101, 65535, 123456789] {
        assert_eq!(viewer::decimal_text(n), n.to_string());
    }
}
