use diary::buffer::LineBuffer;

fn cv(s: &str) -> Vec<char> {
    s.chars().collect()
}

fn sv(v: &Vec<char>) -> String {
    v.iter().collect()
}

#[test]
fn new_buffer_is_empty_with_cursor_at_start() {
    let b = LineBuffer::new();
    assert_eq!(b.cursor(), 0);
    assert!(b.text().is_empty());
}

#[test]
fn from_text_places_cursor_at_end() {
    let b = LineBuffer::from_text(cv("hello"));
    assert_eq!(b.cursor(), 5);
    assert_eq!(sv(b.text()), "hello");
}

#[test]
fn insert_advances_cursor() {
    let mut b = LineBuffer::new();
    b.insert_char('h');
    b.insert_char('i');
    assert_eq!(sv(b.text()), "hi");
    assert_eq!(b.cursor(), 2);
    b.move_left();
    b.insert_char('e');
    assert_eq!(sv(b.text()), "hei");
    assert_eq!(b.cursor(), 2);
}

#[test]
fn insert_newline_inserts_newline_character() {
    let mut b = LineBuffer::from_text(cv("ab"));
    b.insert_newline();
    assert_eq!(sv(b.text()), "ab\n");
    assert_eq!(b.cursor(), 3);
}

#[test]
fn inserts_then_backspaces_restore_buffer() {
    let mut b = LineBuffer::from_text(cv("base"));
    b.move_left();
    let text_before = sv(b.text());
    let cursor_before = b.cursor();
    for c in "hello\nworld".chars() {
        b.insert_char(c);
    }
    for _ in 0.."hello\nworld".chars().count() {
        b.delete_before();
    }
    assert_eq!(sv(b.text()), text_before);
    assert_eq!(b.cursor(), cursor_before);
}

#[test]
fn insert_text_inserts_at_cursor_like_typed_input() {
    let mut b = LineBuffer::from_text(cv("ad"));
    b.move_left();
    b.insert_text(&cv("bc"));
    assert_eq!(sv(b.text()), "abcd");
    assert_eq!(b.cursor(), 3);
    for _ in 0..2 {
        b.delete_before();
    }
    assert_eq!(sv(b.text()), "ad");
    assert_eq!(b.cursor(), 1);
}

#[test]
fn delete_before_at_start_is_noop() {
    let mut b = LineBuffer::from_text(cv("abc"));
    while b.cursor() > 0 {
        b.move_left();
    }
    b.delete_before();
    assert_eq!(sv(b.text()), "abc");
    assert_eq!(b.cursor(), 0);
}

#[test]
fn delete_before_removes_previous_character() {
    let mut b = LineBuffer::from_text(cv("abc"));
    b.delete_before();
    assert_eq!(sv(b.text()), "ab");
    assert_eq!(b.cursor(), 2);
}

#[test]
fn delete_at_end_is_noop() {
    let mut b = LineBuffer::from_text(cv("abc"));
    b.delete_at();
    assert_eq!(sv(b.text()), "abc");
    assert_eq!(b.cursor(), 3);
}

#[test]
fn delete_at_keeps_cursor_in_place() {
    let mut b = LineBuffer::from_text(cv("abc"));
    b.move_left();
    b.move_left();
    b.delete_at();
    assert_eq!(sv(b.text()), "ac");
    assert_eq!(b.cursor(), 1);
}

#[test]
fn cursor_motion_is_clamped() {
    let mut b = LineBuffer::from_text(cv("ab"));
    b.move_right();
    assert_eq!(b.cursor(), 2);
    b.move_left();
    b.move_left();
    b.move_left();
    assert_eq!(b.cursor(), 0);
}

#[test]
fn empty_buffer_accepts_all_operations_as_noops() {
    let mut b = LineBuffer::new();
    b.delete_before();
    b.delete_at();
    b.move_left();
    b.move_right();
    b.move_up();
    b.move_down();
    assert_eq!(b.cursor(), 0);
    assert!(b.text().is_empty());
}

#[test]
fn move_up_lands_on_same_column_of_previous_line() {
    // text "ab\ncd", cursor at offset 4 (on 'd'... column 1 of line 2)
    let mut b = LineBuffer::from_text(cv("ab\ncd"));
    b.move_left();
    assert_eq!(b.cursor(), 4);
    b.move_up();
    assert_eq!(b.cursor(), 1);
}

#[test]
fn move_up_clamps_to_shorter_previous_line() {
    let mut b = LineBuffer::from_text(cv("x\nabcd"));
    assert_eq!(b.cursor(), 6);
    b.move_up();
    assert_eq!(b.cursor(), 1);
}

#[test]
fn move_up_on_first_line_is_noop() {
    let mut b = LineBuffer::from_text(cv("ab"));
    b.move_left();
    b.move_up();
    assert_eq!(b.cursor(), 1);
    assert_eq!(sv(b.text()), "ab");
}

#[test]
fn move_down_lands_on_same_column_of_next_line() {
    let mut b = LineBuffer::from_text(cv("ab\ncd"));
    for _ in 0..4 {
        b.move_left();
    }
    assert_eq!(b.cursor(), 1);
    b.move_down();
    assert_eq!(b.cursor(), 4);
}

#[test]
fn move_down_clamps_to_shorter_next_line() {
    let mut b = LineBuffer::from_text(cv("abcd\nx"));
    b.move_left();
    b.move_left();
    b.move_left();
    assert_eq!(b.cursor(), 3);
    b.move_down();
    assert_eq!(b.cursor(), 6);
}

#[test]
fn move_down_on_last_line_is_noop() {
    let mut b = LineBuffer::from_text(cv("ab\ncd"));
    b.move_left();
    b.move_down();
    assert_eq!(b.cursor(), 4);
}

#[test]
fn take_returns_text_and_resets() {
    let mut b = LineBuffer::from_text(cv("kept text"));
    let taken = b.take();
    assert_eq!(sv(&taken), "kept text");
    assert_eq!(b.cursor(), 0);
    assert!(b.text().is_empty());
}
