use zte_core::cursor::CharKind;
use zte_core::cursor::Cursor;
use zte_core::event::Dir;
use zte_core::highlight::Highlights;
use zte_core::highlight::Region;
use zte_core::state::BufferHandle;
use zte_core::state::ConsoleView;
use zte_core::state::State;
use zte_core::shared::SharedBuffer;
use zte_core::theme::BorderTheme;
use zte_core::ui::Action;
use zte_core::ui::Command;
use zte_core::ui::Input;
use zte_core::ui::Label;
use zte_core::ui::Prompt;
use zte_core::ui::Show;

#[test]
fn input_edits_text() {
    let mut input = Input::default();
    assert!(input.handle(&Action::Char('h')));
    assert!(input.handle(&Action::Char('i')));
    assert_eq!(input.get_text(), "hi");
    assert!(input.handle(&Action::Move(Dir::Left)));
    assert!(input.handle(&Action::Char('e')));
    assert_eq!(input.get_text(), "hei");
    assert!(input.handle(&Action::Char('\x08')));
    assert_eq!(input.get_text(), "hi");
    assert!(!input.handle(&Action::Go));
}

#[test]
fn input_cursor_clamps() {
    let mut input = Input::default();
    input.handle(&Action::Move(Dir::Left));
    assert_eq!(input.cursor, 0);
    input.handle(&Action::Char('a'));
    input.handle(&Action::Move(Dir::Right));
    assert_eq!(input.cursor, 1);
}

#[test]
fn commands_parse() {
    assert!(matches!(Command::from_name("q"), Some(Command::Quit)));
    assert!(matches!(Command::from_name("quit"), Some(Command::Quit)));
    assert!(matches!(Command::from_name("version"), Some(Command::Version)));
    assert!(matches!(Command::from_name("?"), Some(Command::Help)));
    assert!(matches!(Command::from_name("help"), Some(Command::Help)));
    assert!(Command::from_name("nonsense").is_none());
}

#[test]
fn prompt_turns_lines_into_actions() {
    let mut prompt = Prompt { input: Input::default() };
    for c in "quit".chars() {
        prompt.input.handle(&Action::Char(c));
    }
    assert!(matches!(prompt.get_action("ed 1.0"), Some(Action::Quit)));

    let mut prompt = Prompt { input: Input::default() };
    for c in "version".chars() {
        prompt.input.handle(&Action::Char(c));
    }
    match prompt.get_action("ed 1.0") {
        Some(Action::Show(v)) => assert_eq!(v, "ed 1.0"),
        _ => panic!("version should show the version line"),
    }
}

#[test]
fn show_panel_dismisses_on_cancel() {
    let show = Show { label: Label::new("note".to_string()) };
    assert!(show.handle(&Action::Cancel));
    assert!(!show.handle(&Action::Go));
    assert_eq!(show.label.text, "note");
}

#[test]
fn highlight_lookup() {
    let h = Highlights::from_regions(vec![(0, 2, Region::Keyword), (4, 6, Region::String)])
        .unwrap();
    assert!(matches!(h.get_at(1), Region::Keyword));
    assert!(matches!(h.get_at(3), Region::Normal));
    assert!(matches!(h.get_at(5), Region::String));
    assert!(matches!(h.get_at(9), Region::Normal));
    assert!(matches!(Highlights::new().get_at(0), Region::Normal));
}

#[test]
fn overlapping_regions_are_refused() {
    assert!(Highlights::from_regions(vec![(0, 3, Region::Keyword), (2, 5, Region::String)])
        .is_none());
    assert!(Highlights::from_regions(vec![(3, 2, Region::Keyword)]).is_none());
}

#[test]
fn char_kinds_classify_words() {
    assert!(CharKind::from_char(' ').is_none());
    assert!(matches!(CharKind::from_char('\n'), Some(CharKind::Newline)));
    assert!(matches!(CharKind::from_char('a'), Some(CharKind::AlphaNum)));
    assert!(matches!(CharKind::from_char('_'), Some(CharKind::AlphaNum)));
    assert!(matches!(CharKind::from_char('{'), Some(CharKind::Delimiter)));
    assert!(matches!(CharKind::from_char('+'), Some(CharKind::Other)));
    // delimiters never match each other, so a jump crosses one at a time
    assert!(CharKind::from_char('{') != CharKind::from_char('}'));
    assert!(!(CharKind::Delimiter == CharKind::Delimiter));
    assert!(CharKind::AlphaNum == CharKind::AlphaNum);
}

#[test]
fn cursor_predicates() {
    let mut c = Cursor { base: 2, pos: 5, preferred_x: None };
    assert!(c.is_reaching());
    assert!(c.inside_reach(2));
    assert!(!c.inside_reach(5));
    assert!(c.encloses(5));
    assert!(!c.encloses(2));
    assert!(c.unreach(Dir::Left));
    assert_eq!(c.pos, 2);
    c.go_to(7);
    assert_eq!((c.base, c.pos), (7, 7));
}

#[test]
fn cursor_shifts_clamp_at_edit() {
    let mut c = Cursor { base: 4, pos: 6, preferred_x: None };
    c.shift_relative_to(5, 1);
    assert_eq!((c.base, c.pos), (4, 7));
    let mut d = Cursor { base: 5, pos: 5, preferred_x: None };
    d.shift_relative_to(5, -1);
    assert_eq!((d.base, d.pos), (5, 5));
}

#[test]
fn registry_lifecycle() {
    let mut state = State::new();
    let id = state.insert_buffer(SharedBuffer::new_scratch());
    assert!(state.has_buffer(id));
    let h = state.new_handle(id).unwrap();
    assert_eq!(h.buffer_id, id);
    let h2 = state.duplicate_handle(&h).unwrap();
    assert_eq!(h2.buffer_id, id);
    assert!(h2.cursor_id != h.cursor_id);

    // three viewers: the bookkeeping handle plus two panes — close is refused
    state.close_buffer(id);
    assert!(state.has_buffer(id));

    state.drop_handle(h);
    state.drop_handle(h2);
    state.close_buffer(id);
    assert!(!state.has_buffer(id));
}

#[test]
fn registry_routes_events() {
    let mut state = State::new();
    let id = state.insert_buffer(SharedBuffer::with_content(
        zte_core::content::Content::from("hi"),
        None,
        true,
    ));
    let h = state.new_handle(id).unwrap();
    let r = state.handle_event(h, zte_core::event::Event::Insert('!'), 0);
    assert!(matches!(r, Some(Ok(None))));
    let text = state.get_shared_buffer(id).unwrap().get_string();
    assert_eq!(text, "!hi\n");
    let stale = BufferHandle { buffer_id: zte_core::shared::BufferId(999), cursor_id: h.cursor_id };
    assert!(state.handle_event(stale, zte_core::event::Event::Insert('!'), 0).is_none());
}

#[test]
fn recent_list_tracks_use() {
    let mut state = State::new();
    let a = state.insert_buffer(SharedBuffer::new_scratch());
    let b = state.insert_buffer(SharedBuffer::new_scratch());
    let ha = state.new_handle(a).unwrap();
    state.set_recent_buffer(ha);
    let recents = state.recent_buffers();
    assert_eq!(recents[0].buffer_id, a);
    assert!(recents.iter().any(|h| h.buffer_id == b));
}

#[test]
fn border_theme_defaults() {
    let t = BorderTheme::default();
    assert_eq!(t.top_left, '╭');
    assert_eq!(t.bottom_right, '╯');
    assert_eq!(t.left, '│');
    let v = ConsoleView { line: 3 };
    assert_eq!(v.line, 3);
}

#[test]
fn find_by_path_deduplicates_open_files() {
    let mut state = State::new();
    assert!(state.can_insert_buffer());
    let a = state.insert_buffer(SharedBuffer::with_content(
        zte_core::content::Content::from("x"),
        Some("/home/u/a.txt".to_string()),
        false,
    ));
    state.insert_buffer(SharedBuffer::new_scratch());
    assert_eq!(state.find_by_path("/home/u/a.txt"), Some(a));
    assert_eq!(state.find_by_path("/home/u/b.txt"), None);
}

#[test]
fn duplicate_handle_copies_the_cursor() {
    let mut state = State::new();
    let id = state.insert_buffer(SharedBuffer::with_content(
        zte_core::content::Content::from("abcdef"),
        None,
        true,
    ));
    let h = state.new_handle(id).unwrap();
    state.handle_event(h, zte_core::event::Event::CursorMove(Dir::Right, false), 0);
    state.handle_event(h, zte_core::event::Event::CursorMove(Dir::Right, false), 0);
    let h2 = state.duplicate_handle(&h).unwrap();
    let buf = state.get_shared_buffer(id).unwrap();
    assert_eq!(buf.cursor(h2.cursor_id).pos, buf.cursor(h.cursor_id).pos);
    // and the copy moves independently afterwards
    state.handle_event(h2, zte_core::event::Event::CursorMove(Dir::Left, false), 0);
    let buf = state.get_shared_buffer(id).unwrap();
    assert_eq!(buf.cursor(h.cursor_id).pos, 2);
    assert_eq!(buf.cursor(h2.cursor_id).pos, 1);
}

#[test]
fn closing_drops_recent_entries() {
    let mut state = State::new();
    let a = state.insert_buffer(SharedBuffer::new_scratch());
    let b = state.insert_buffer(SharedBuffer::new_scratch());
    state.close_buffer(a);
    assert!(!state.has_buffer(a));
    assert!(state.recent_buffers().iter().all(|h| h.buffer_id != a));
    assert!(state.recent_buffers().iter().any(|h| h.buffer_id == b));
}
