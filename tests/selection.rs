use terminal_chat::selection::Selection;

fn lines() -> Vec<String> {
    vec!["hello world".to_string(), "second line".to_string(), "third".to_string()]
}

#[test]
fn single_line_selection() {
    let mut s = Selection::new();
    s.press(6, 2);
    s.drag(11, 2);
    s.release();
    assert!(!s.selecting);
    assert_eq!(s.text(&lines()), Some("world".to_string()));
}

#[test]
fn backwards_multi_line_selection() {
    let mut s = Selection::new();
    s.press(3, 4);
    s.drag(6, 2);
    assert_eq!(s.text(&lines()), Some("world\nsecond line\nthi".to_string()));
}

#[test]
fn offsets_past_the_end_are_clamped() {
    let mut s = Selection::new();
    s.press(40, 3);
    s.drag(0, 9);
    assert_eq!(s.text(&lines()), Some("\nthird\n".to_string()));
    assert_eq!(s.text(&Vec::new()), Some(String::new()));
}

#[test]
fn header_rows_and_incomplete_selections_select_nothing() {
    let mut s = Selection::new();
    s.press(1, 1);
    assert_eq!(s.start, None);
    s.drag(1, 5);
    assert_eq!(s.end, None);
    s.press(0, 2);
    assert_eq!(s.text(&lines()), None);
    s.clear();
    assert_eq!((s.start, s.end, s.selecting), (None, None, false));
}

#[test]
fn non_ascii_is_cut_at_characters() {
    let mut s = Selection::new();
    s.press(1, 2);
    s.drag(3, 2);
    assert_eq!(s.text(&vec!["héllo".to_string()]), Some("él".to_string()));
}
