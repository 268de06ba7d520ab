use zte_core::content::Config;
use zte_core::content::Content;
use zte_core::cursor::Cursor;
use zte_core::event::Dir;
use zte_core::event::Event;
use zte_core::shared::SharedBuffer;

fn buffer_of(s: &str) -> SharedBuffer {
    SharedBuffer::with_content(Content::from(s), None, true)
}

fn cursor_at(pos: usize) -> Cursor {
    Cursor { base: pos, pos, preferred_x: None }
}

fn plain_config() -> Config {
    Config { tab_width: 4, hard_tabs: false, auto_indent: false, insert_matching: false }
}

#[test]
fn newline_without_auto_indent() {
    // buffer "hello\nworld", cursor at the end of "hello"
    let mut buf = buffer_of("hello\nworld");
    buf.set_config(plain_config());
    let a = buf.insert_cursor(cursor_at(5));
    buf.handle(a, Event::Insert('\n'), 0).unwrap();
    assert_eq!(buf.get_string(), "hello\n\nworld\n");
    assert_eq!(buf.line_count(), 3);
    assert_eq!(buf.cursor(a).pos, 6);
}

#[test]
fn newline_expands_bracket_pair() {
    // cursor between the braces of "if x {}" with auto-indent on
    let mut buf = buffer_of("if x {}");
    let a = buf.insert_cursor(cursor_at(6));
    buf.handle(a, Event::Insert('\n'), 0).unwrap();
    assert_eq!(buf.get_string(), "if x {\n    \n}\n");
    assert_eq!(buf.line_count(), 3);
    assert_eq!(buf.cursor(a).pos, 11);
}

#[test]
fn newline_copies_leading_whitespace() {
    let mut buf = buffer_of("    abcd");
    let a = buf.insert_cursor(cursor_at(8));
    buf.handle(a, Event::Insert('\n'), 0).unwrap();
    assert_eq!(buf.get_string(), "    abcd\n    \n");
    assert_eq!(buf.cursor(a).pos, 13);
}

#[test]
fn word_jump_right_lands_at_word_ends() {
    let mut buf = buffer_of("  foo bar");
    let a = buf.insert_cursor(cursor_at(0));
    buf.handle(a, Event::CursorJump(Dir::Right, false), 0).unwrap();
    assert_eq!(buf.cursor(a).pos, 5);
    buf.handle(a, Event::CursorJump(Dir::Right, false), 0).unwrap();
    assert_eq!(buf.cursor(a).pos, 9);
}

#[test]
fn word_jump_left() {
    let mut buf = buffer_of("foo bar");
    let a = buf.insert_cursor(cursor_at(7));
    buf.handle(a, Event::CursorJump(Dir::Left, false), 0).unwrap();
    assert_eq!(buf.cursor(a).pos, 4);
}

#[test]
fn backspace_word_deletes_one_word() {
    let mut buf = buffer_of("foo bar");
    let a = buf.insert_cursor(cursor_at(7));
    buf.handle(a, Event::BackspaceWord, 0).unwrap();
    assert_eq!(buf.get_string(), "foo \n");
    assert_eq!(buf.cursor(a).pos, 4);
}

#[test]
fn backspace_word_skips_trailing_whitespace() {
    let mut buf = buffer_of("foo   ");
    let a = buf.insert_cursor(cursor_at(6));
    buf.handle(a, Event::BackspaceWord, 0).unwrap();
    assert_eq!(buf.get_string(), "\n");
}

#[test]
fn bracket_jump_lands_past_matching_brace() {
    let mut buf = buffer_of("x { y { z } } w");
    let a = buf.insert_cursor(cursor_at(0));
    buf.handle(a, Event::CursorJump(Dir::Down, false), 0).unwrap();
    assert_eq!(buf.cursor(a).pos, 13);
}

#[test]
fn bracket_jump_without_brace_stays_put() {
    let mut buf = buffer_of("plain text");
    let a = buf.insert_cursor(cursor_at(3));
    buf.handle(a, Event::CursorJump(Dir::Down, false), 0).unwrap();
    assert_eq!(buf.cursor(a).pos, 3);
}

#[test]
fn soft_tab_fills_to_next_stop() {
    let mut buf = buffer_of("a");
    let a = buf.insert_cursor(cursor_at(1));
    buf.handle(a, Event::Insert('\t'), 0).unwrap();
    assert_eq!(buf.get_string(), "a   \n");
    assert_eq!(buf.cursor(a).pos, 4);
}

#[test]
fn hard_tab_inserts_tab_character() {
    let mut buf = buffer_of("a");
    buf.set_config(Config { tab_width: 4, hard_tabs: true, auto_indent: true, insert_matching: false });
    let a = buf.insert_cursor(cursor_at(1));
    buf.handle(a, Event::Insert('\t'), 0).unwrap();
    assert_eq!(buf.get_string(), "a\t\n");
}

#[test]
fn soft_tab_indents_multi_line_selection() {
    let mut buf = buffer_of("aa\nbb");
    let a = buf.insert_cursor(Cursor { base: 0, pos: 4, preferred_x: None });
    buf.handle(a, Event::Insert('\t'), 0).unwrap();
    assert_eq!(buf.get_string(), "    aa\n    bb\n");
}

#[test]
fn backspace_collapses_soft_tab_run() {
    let mut buf = buffer_of("    ");
    let a = buf.insert_cursor(cursor_at(4));
    buf.handle(a, Event::Backspace, 0).unwrap();
    assert_eq!(buf.get_string(), "\n");
    assert_eq!(buf.cursor(a).pos, 0);
}

#[test]
fn backspace_of_single_char() {
    let mut buf = buffer_of("ab");
    let a = buf.insert_cursor(cursor_at(2));
    buf.handle(a, Event::Backspace, 0).unwrap();
    assert_eq!(buf.get_string(), "a\n");
}

#[test]
fn backspace_deletes_selection_first() {
    let mut buf = buffer_of("abcd");
    let a = buf.insert_cursor(Cursor { base: 3, pos: 1, preferred_x: None });
    buf.handle(a, Event::Backspace, 0).unwrap();
    assert_eq!(buf.get_string(), "ad\n");
}

#[test]
fn insert_deletes_selection_first() {
    let mut buf = buffer_of("abcd");
    buf.set_config(plain_config());
    let a = buf.insert_cursor(Cursor { base: 1, pos: 3, preferred_x: None });
    buf.handle(a, Event::Insert('x'), 0).unwrap();
    assert_eq!(buf.get_string(), "axd\n");
}

#[test]
fn matching_bracket_auto_closes() {
    let mut buf = buffer_of("");
    buf.set_config(Config { tab_width: 4, hard_tabs: false, auto_indent: true, insert_matching: true });
    let a = buf.insert_cursor(cursor_at(0));
    buf.handle(a, Event::Insert('('), 0).unwrap();
    assert_eq!(buf.get_string(), "()\n");
    assert_eq!(buf.cursor(a).pos, 1);
}

#[test]
fn delete_removes_under_cursor() {
    let mut buf = buffer_of("ab");
    let a = buf.insert_cursor(cursor_at(0));
    buf.handle(a, Event::Delete, 0).unwrap();
    assert_eq!(buf.get_string(), "b\n");
    // deleting at the end of the buffer changes nothing
    let b = buf.insert_cursor(cursor_at(1));
    buf.handle(b, Event::Delete, 1000).unwrap();
    assert_eq!(buf.get_string(), "b\n");
}

#[test]
fn comment_marks_selected_lines() {
    let mut buf = buffer_of("aa\n  bb\ncc");
    let a = buf.insert_cursor(Cursor { base: 0, pos: 6, preferred_x: None });
    buf.handle(a, Event::Comment, 0).unwrap();
    assert_eq!(buf.get_string(), "// aa\n  // bb\ncc\n");
}

#[test]
fn duplicate_line_copies_row_below() {
    let mut buf = buffer_of("ab\ncd");
    let a = buf.insert_cursor(cursor_at(1));
    buf.handle(a, Event::Duplicate, 0).unwrap();
    assert_eq!(buf.get_string(), "ab\nab\ncd\n");
}

#[test]
fn duplicate_selection_reinserts_after_it() {
    let mut buf = buffer_of("abcd");
    let a = buf.insert_cursor(Cursor { base: 1, pos: 3, preferred_x: None });
    buf.handle(a, Event::Duplicate, 0).unwrap();
    assert_eq!(buf.get_string(), "abcbcd\n");
}

#[test]
fn vertical_movement_remembers_preferred_column() {
    let mut buf = buffer_of("abcd\nx\nefgh");
    let a = buf.insert_cursor(cursor_at(3));
    buf.handle(a, Event::CursorMove(Dir::Down, false), 0).unwrap();
    assert_eq!(buf.cursor(a).pos, 6); // clamped to the short line's end
    buf.handle(a, Event::CursorMove(Dir::Down, false), 0).unwrap();
    assert_eq!(buf.cursor(a).pos, 10); // original column restored
}

#[test]
fn movement_collapses_selection_before_moving() {
    let mut buf = buffer_of("abcdef");
    let a = buf.insert_cursor(Cursor { base: 2, pos: 4, preferred_x: None });
    buf.handle(a, Event::CursorMove(Dir::Left, false), 0).unwrap();
    // first press only collapses to the selection's lower end
    assert_eq!(buf.cursor(a).pos, 2);
    assert_eq!(buf.cursor(a).base, 2);
    buf.handle(a, Event::CursorMove(Dir::Left, false), 0).unwrap();
    assert_eq!(buf.cursor(a).pos, 1);
}

#[test]
fn reaching_movement_extends_selection() {
    let mut buf = buffer_of("abcdef");
    let a = buf.insert_cursor(cursor_at(2));
    buf.handle(a, Event::CursorMove(Dir::Right, true), 0).unwrap();
    assert_eq!(buf.cursor(a).base, 2);
    assert_eq!(buf.cursor(a).pos, 3);
}

#[test]
fn horizontal_movement_clamps_at_ends() {
    let mut buf = buffer_of("ab");
    let a = buf.insert_cursor(cursor_at(0));
    buf.handle(a, Event::CursorMove(Dir::Left, false), 0).unwrap();
    assert_eq!(buf.cursor(a).pos, 0);
    let b = buf.insert_cursor(cursor_at(2));
    buf.handle(b, Event::CursorMove(Dir::Right, false), 0).unwrap();
    assert_eq!(buf.cursor(b).pos, 2);
}
