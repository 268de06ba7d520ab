use zte_core::content::Config;
use zte_core::content::Content;
use zte_core::content::Line;
use zte_core::content::Loc;

fn string_of(c: &Content) -> String {
    c.get_string()
}

#[test]
fn pos_line() {
    let cfg = Config::default();
    let content = Content::from("hello");

    assert_eq!(content.lines().len(), 1);
    assert_eq!(content.lines()[0].len(), 6);
    assert_eq!(content.pos_loc(0, &cfg), Loc::new(0, 0));
    assert_eq!(content.pos_loc(3, &cfg), Loc::new(3, 0));
    assert_eq!(content.pos_loc(4, &cfg), Loc::new(4, 0));
    assert_eq!(content.pos_loc(5, &cfg), Loc::new(5, 0));

    let content = Content::from("hello\nworld\ntest");

    assert_eq!(content.lines().len(), 3);
    assert_eq!(content.lines()[2].len(), 5);
    assert_eq!(content.pos_loc(5, &cfg), Loc::new(5, 0));
    assert_eq!(content.pos_loc(6, &cfg), Loc::new(0, 1));
    assert_eq!(content.pos_loc(11, &cfg), Loc::new(5, 1));
}

#[test]
fn round_trip_with_trailing_newline() {
    let c = Content::from("hello\nworld\n");
    assert_eq!(string_of(&c), "hello\nworld\n");
    assert_eq!(c.len(), 11);
}

#[test]
fn round_trip_without_trailing_newline() {
    let c = Content::from("hello\nworld");
    assert_eq!(string_of(&c), "hello\nworld\n");
    assert_eq!(c.len(), 11);
}

#[test]
fn round_trip_empty() {
    let c = Content::from("");
    assert_eq!(string_of(&c), "\n");
    assert_eq!(c.len(), 0);
    assert_eq!(c.line_count(), 1);
}

#[test]
fn insert_plain_char() {
    let mut c = Content::from("ab");
    c.insert(1, 'x');
    assert_eq!(string_of(&c), "axb\n");
    assert_eq!(c.len(), 3);
}

#[test]
fn insert_newline_splits_line() {
    let mut c = Content::from("hello");
    c.insert(2, '\n');
    assert_eq!(c.line_count(), 2);
    assert_eq!(string_of(&c), "he\nllo\n");
}

#[test]
fn remove_merges_lines() {
    let mut c = Content::from("ab\ncd");
    c.remove(2);
    assert_eq!(c.line_count(), 1);
    assert_eq!(string_of(&c), "abcd\n");
}

#[test]
fn remove_at_end_is_noop() {
    let mut c = Content::from("ab");
    c.remove(2);
    assert_eq!(string_of(&c), "ab\n");
}

#[test]
fn remove_char() {
    let mut c = Content::from("abc");
    c.remove(1);
    assert_eq!(string_of(&c), "ac\n");
}

#[test]
fn char_at_reads_chars_and_newlines() {
    let c = Content::from("ab\ncd");
    assert_eq!(c.char_at(0), Some('a'));
    assert_eq!(c.char_at(2), Some('\n'));
    assert_eq!(c.char_at(3), Some('c'));
    assert_eq!(c.char_at(5), Some('\n'));
    assert_eq!(c.char_at(6), None);
}

#[test]
fn insert_line_adds_row() {
    let mut c = Content::from("a\nc");
    c.insert_line(1, "b");
    assert_eq!(string_of(&c), "a\nb\nc\n");
}

#[test]
fn tab_expansion_in_pos_loc() {
    let cfg = Config::default();
    let c = Content::from("\tx");
    assert_eq!(c.pos_loc(0, &cfg), Loc::new(0, 0));
    assert_eq!(c.pos_loc(1, &cfg), Loc::new(4, 0));
    assert_eq!(c.pos_loc(2, &cfg), Loc::new(5, 0));
}

#[test]
fn loc_pos_collapses_mid_tab_to_tab_column() {
    let cfg = Config::default();
    let c = Content::from("\tx");
    assert_eq!(c.loc_pos(Loc::new(2, 0), &cfg), 0);
    assert_eq!(c.loc_pos(Loc::new(4, 0), &cfg), 1);
    assert_eq!(c.pos_loc(c.loc_pos(Loc::new(2, 0), &cfg), &cfg), Loc::new(0, 0));
}

#[test]
fn loc_pos_clamps_past_line_and_buffer() {
    let cfg = Config::default();
    let c = Content::from("ab\ncd");
    assert_eq!(c.loc_pos(Loc::new(9, 0), &cfg), 2);
    assert_eq!(c.loc_pos(Loc::new(0, 9), &cfg), 5);
}

#[test]
fn round_trip_locations_on_boundaries() {
    let cfg = Config::default();
    let c = Content::from("a\tb\ncd");
    for y in 0..c.line_count() {
        let line = c.line(y).unwrap();
        let width = line.glyphs(&cfg).len();
        for x in 0..=width {
            let p = c.loc_pos(Loc::new(x, y), &cfg);
            let back = c.pos_loc(p, &cfg);
            if back.x == x && back.y == y {
                continue;
            }
            // a mid-tab location collapses to the tab's own column
            let g = line.glyphs(&cfg);
            assert!(x < width);
            let src = g[x].0.unwrap();
            assert_eq!(back, c.pos_loc(c.loc_pos(Loc::new(x, y), &cfg), &cfg));
            assert_eq!(line.get(src), Some('\t'));
        }
    }
}

#[test]
fn glyphs_expand_tabs() {
    let cfg = Config::default();
    let l = Line::from_chars(vec!['\t', 'a']);
    let g = l.glyphs(&cfg);
    assert_eq!(g.len(), 5);
    assert_eq!(g[0], (Some(0), ' '));
    assert_eq!(g[3], (Some(0), ' '));
    assert_eq!(g[4], (Some(1), 'a'));
}

#[test]
fn line_reads_back() {
    let c = Content::from("ab\ncd");
    let l = c.line(1).unwrap();
    assert_eq!(l.len(), 3);
    assert_eq!(l.get(0), Some('c'));
    assert_eq!(l.get(2), None);
    assert_eq!(l.get_string(), "cd\n");
    assert!(c.line(2).is_none());
    assert_eq!(Line::empty().len(), 1);
}

#[test]
fn duplicate_copies_all_lines() {
    let c = Content::from("ab\ncd");
    let d = c.duplicate();
    assert_eq!(d.get_string(), "ab\ncd\n");
}
