use zte_core::content::Content;
use zte_core::cursor::Cursor;
use zte_core::event::Event;
use zte_core::shared::SharedBuffer;

fn buffer_of(s: &str) -> SharedBuffer {
    SharedBuffer::with_content(Content::from(s), None, true)
}

fn cursor_at(pos: usize) -> Cursor {
    Cursor { base: pos, pos, preferred_x: None }
}

#[test]
fn two_cursors_shift_on_insert() {
    // buffer of ten characters; cursor A at 3 inserts one character
    let mut buf = buffer_of("abcdefghij");
    let a = buf.insert_cursor(cursor_at(3));
    let b = buf.insert_cursor(cursor_at(8));
    let r = buf.handle(a, Event::Insert('x'), 0);
    assert!(r.is_ok());
    assert_eq!(buf.get_string(), "abcxdefghij\n");
    assert_eq!(buf.cursor(a).pos, 4);
    assert_eq!(buf.cursor(b).pos, 9);
}

#[test]
fn cursors_before_edit_stay_put() {
    let mut buf = buffer_of("abcdefghij");
    let a = buf.insert_cursor(cursor_at(8));
    let b = buf.insert_cursor(cursor_at(3));
    buf.handle(a, Event::Insert('x'), 0).unwrap();
    assert_eq!(buf.cursor(b).pos, 3);
}

#[test]
fn remove_clamps_cursors_inside_range() {
    let mut buf = buffer_of("abcdef");
    let a = buf.insert_cursor(Cursor { base: 1, pos: 4, preferred_x: None });
    let b = buf.insert_cursor(cursor_at(2));
    buf.handle(a, Event::Backspace, 0).unwrap(); // deletes the selection [1, 4)
    assert_eq!(buf.get_string(), "aef\n");
    assert_eq!(buf.cursor(a).pos, 1);
    assert_eq!(buf.cursor(b).pos, 1);
}

#[test]
fn undo_then_redo_restores_content_and_cursors() {
    let mut buf = buffer_of("hello");
    let a = buf.insert_cursor(cursor_at(5));
    buf.handle(a, Event::Insert('!'), 0).unwrap();
    assert_eq!(buf.get_string(), "hello!\n");
    assert_eq!(buf.cursor(a).pos, 6);

    buf.handle(a, Event::Undo, 10_000).unwrap();
    assert_eq!(buf.get_string(), "hello\n");

    buf.handle(a, Event::Redo, 20_000).unwrap();
    assert_eq!(buf.get_string(), "hello!\n");
    assert_eq!(buf.cursor(a).pos, 6);
}

#[test]
fn undo_keeps_cursor_created_after_snapshot() {
    let mut buf = buffer_of("hello");
    let a = buf.insert_cursor(cursor_at(5));
    buf.handle(a, Event::Insert('!'), 0).unwrap();
    // a second view opens only now
    let b = buf.insert_cursor(cursor_at(6));
    buf.handle(a, Event::Undo, 10_000).unwrap();
    assert!(buf.has_cursor(b));
    assert!(buf.cursor(b).pos <= buf.len());
}

#[test]
fn edits_within_window_coalesce_into_one_undo_step() {
    let mut buf = buffer_of("");
    let a = buf.insert_cursor(cursor_at(0));
    buf.handle(a, Event::Insert('a'), 0).unwrap();
    buf.handle(a, Event::Insert('b'), 100).unwrap();
    buf.handle(a, Event::Insert('c'), 200).unwrap();
    assert_eq!(buf.get_string(), "abc\n");
    buf.handle(a, Event::Undo, 300).unwrap();
    assert_eq!(buf.get_string(), "\n");
}

#[test]
fn edits_past_window_undo_separately() {
    let mut buf = buffer_of("");
    let a = buf.insert_cursor(cursor_at(0));
    buf.handle(a, Event::Insert('a'), 0).unwrap();
    buf.handle(a, Event::Insert('b'), 1000).unwrap();
    assert_eq!(buf.get_string(), "ab\n");
    buf.handle(a, Event::Undo, 2000).unwrap();
    assert_eq!(buf.get_string(), "a\n");
    buf.handle(a, Event::Undo, 3000).unwrap();
    assert_eq!(buf.get_string(), "\n");
}

#[test]
fn new_edit_clears_redo_stack() {
    let mut buf = buffer_of("");
    let a = buf.insert_cursor(cursor_at(0));
    buf.handle(a, Event::Insert('a'), 0).unwrap();
    buf.handle(a, Event::Undo, 1000).unwrap();
    buf.handle(a, Event::Insert('b'), 2000).unwrap();
    buf.handle(a, Event::Redo, 3000).unwrap(); // nothing to redo any more
    assert_eq!(buf.get_string(), "b\n");
}

#[test]
fn undo_on_empty_history_is_silent() {
    let mut buf = buffer_of("hello");
    let a = buf.insert_cursor(cursor_at(0));
    buf.handle(a, Event::Undo, 0).unwrap();
    buf.handle(a, Event::Redo, 0).unwrap();
    assert_eq!(buf.get_string(), "hello\n");
}

#[test]
fn dirty_flag_follows_edits_and_saves() {
    let mut buf = SharedBuffer::with_content(Content::from("x"), Some("/tmp/x.txt".to_string()), false);
    assert!(!buf.is_unsaved());
    let a = buf.insert_cursor(cursor_at(0));
    buf.handle(a, Event::Insert('y'), 0).unwrap();
    assert!(buf.is_unsaved());
    buf.mark_saved(Some("/tmp/x.txt".to_string()));
    assert!(!buf.is_unsaved());
}

#[test]
fn titles_follow_paths() {
    let buf = SharedBuffer::with_content(Content::from(""), Some("/home/u/notes.txt".to_string()), false);
    assert_eq!(buf.title(), "notes.txt");
    let scratch = SharedBuffer::new_scratch();
    assert_eq!(scratch.title(), "untitled");
    let odd = SharedBuffer::with_content(Content::from(""), Some("dir/".to_string()), false);
    assert_eq!(odd.title(), "untitled");
}

#[test]
fn unrecognized_events_come_back_unconsumed() {
    let mut buf = buffer_of("hello");
    let a = buf.insert_cursor(cursor_at(0));
    let r = buf.handle(a, Event::SaveBuffer, 0);
    assert!(matches!(r, Err(Event::SaveBuffer)));
    assert_eq!(buf.get_string(), "hello\n");
}

#[test]
fn copy_and_cut_hand_back_the_selection() {
    let mut buf = buffer_of("abcdef");
    let a = buf.insert_cursor(Cursor { base: 1, pos: 4, preferred_x: None });
    let copied = buf.handle(a, Event::Copy, 0).unwrap();
    assert_eq!(copied.as_deref(), Some("bcd"));
    assert_eq!(buf.get_string(), "abcdef\n");
    let cut = buf.handle(a, Event::Cut, 0).unwrap();
    assert_eq!(cut.as_deref(), Some("bcd"));
    assert_eq!(buf.get_string(), "aef\n");
}

#[test]
fn paste_inserts_at_cursor() {
    let mut buf = buffer_of("ab");
    let a = buf.insert_cursor(cursor_at(1));
    buf.handle(a, Event::Paste("XY".to_string()), 0).unwrap();
    assert_eq!(buf.get_string(), "aXYb\n");
    assert_eq!(buf.cursor(a).pos, 3);
}

#[test]
fn select_all_spans_the_buffer() {
    let mut buf = buffer_of("hello");
    let a = buf.insert_cursor(cursor_at(2));
    buf.handle(a, Event::SelectAll, 0).unwrap();
    assert_eq!(buf.cursor(a).base, 0);
    assert_eq!(buf.cursor(a).pos, 5);
}
