use modal_editor::auto_complete::{wanted_listing, AutoComplete, Listing};
use modal_editor::buffers::{Buffer, Buffers, Found, IS_SCRATCH};
use modal_editor::cmd_line::{CmdLine, Mode};
use modal_editor::layout::Rect;
use modal_editor::terminal::CursorStyle;

fn typed(s: &str) -> CmdLine {
    let mut l = CmdLine::new();
    l.insert_all(s);
    l
}

fn buffers(n: usize) -> Buffers {
    let mut b = Buffers::new();
    for _ in 0..n {
        b.push(Buffer::new(None, IS_SCRATCH, Found::Missing), None);
    }
    b
}

fn names(list: &[&str]) -> Option<Vec<String>> {
    Some(list.iter().map(|s| s.to_string()).collect())
}

#[test]
fn a_new_line_is_empty() {
    let l = CmdLine::new();
    assert_eq!(l.input, "");
    assert_eq!(l.cursor, 0);
    assert!(!l.error);
    assert!(l.mode == Mode::Insert);
    assert!(l.selection.is_none());
}

#[test]
fn typing_goes_by_bytes() {
    let mut l = typed("aä€𝄞");
    assert_eq!(l.input, "aä€𝄞");
    assert_eq!(l.cursor, 10);
    l.move_left();
    assert_eq!(l.cursor, 6);
    l.insert('x');
    assert_eq!(l.input, "aä€x𝄞");
    assert_eq!(l.cursor, 7);
}

#[test]
fn taking_out_what_was_typed_leaves_the_line_as_it_was() {
    let mut l = typed("open ö");
    l.move_left();
    let (input, cursor) = (l.input.clone(), l.cursor);
    l.insert('€');
    l.backspace();
    assert_eq!(l.input, input);
    assert_eq!(l.cursor, cursor);
    l.cursor = 0;
    l.backspace();
    assert_eq!(l.input, input);
}

#[test]
fn an_error_gives_way_to_what_is_typed() {
    let mut l = typed("abc");
    l.error("went wrong");
    assert_eq!(l.input, "went wrong");
    assert!(l.error);
    l.insert('q');
    assert_eq!(l.input, "q");
    assert_eq!(l.cursor, 1);
    assert!(!l.error);
    l.error("again");
    l.backspace();
    assert_eq!(l.input, "");
}

#[test]
fn the_cursor_moves_from_character_to_character() {
    let mut l = typed("aä€");
    l.move_right();
    assert_eq!(l.cursor, 6);
    l.move_left();
    assert_eq!(l.cursor, 3);
    l.move_left();
    assert_eq!(l.cursor, 1);
    l.move_left();
    l.move_left();
    assert_eq!(l.cursor, 0);
    l.move_right();
    l.move_right();
    assert_eq!(l.cursor, 3);
    assert!(l.is_on_char());
}

#[test]
fn a_selection_is_taken_out_or_told() {
    let mut l = typed("write file");
    l.cursor = 0;
    l.enter_visual();
    assert_eq!(l.selection, Some((0, 1)));
    for _ in 0..4 {
        l.move_selection_right();
    }
    assert_eq!(l.selection, Some((0, 5)));
    assert_eq!(l.selected((0, 5)), "write");
    assert!(l.may_yank() && l.may_delete());
    l.delete();
    assert_eq!(l.input, " file");
    assert!(l.mode == Mode::Normal);
    assert!(l.selection.is_none());
    assert_eq!(l.cursor, 0);
}

#[test]
fn a_position_inside_a_character_is_noticed() {
    let mut l = typed("ä");
    l.cursor = 1;
    assert!(!l.is_on_char());
    assert!(!l.may_edit());
    l.cursor = 9;
    assert!(!l.may_edit());
    l.error = true;
    assert!(l.may_edit());
}

#[test]
fn a_paste_is_put_on_one_line() {
    let mut l = typed("ab");
    l.move_left();
    l.paste("x\ny\n");
    assert_eq!(l.input, "axyb");
    assert_eq!(l.cursor, 3);
}

#[test]
fn the_cursor_is_shown_behind_the_bytes() {
    let mut l = typed("ä!");
    let r = Rect { x: 2, y: 23, h: 1, w: 80 };
    assert!(l.cursor(&r) == (5, 23, CursorStyle::SteadyBar));
    l.enter_normal();
    assert!(l.cursor(&r) == (5, 23, CursorStyle::SteadyBlock));
    l.enter_visual();
    assert!(l.cursor(&r) == (5, 23, CursorStyle::SteadyUnderScore));
    l.enter_insert();
    assert!(l.cursor(&r) == (5, 23, CursorStyle::SteadyBar));
}

#[test]
fn an_empty_line_can_become_any_command() {
    let ac = AutoComplete::new(&CmdLine::new(), &buffers(1), &None).unwrap();
    assert_eq!(ac.filtered.len(), 12);
    assert_eq!(ac.filtered[0], "cd");
    assert_eq!(ac.filtered[11], "pwd");
    assert!(ac.selected.is_none());
}

#[test]
fn a_beginning_is_completed_to_the_commands_that_start_so() {
    let ac = AutoComplete::new(&typed("split-"), &buffers(1), &None).unwrap();
    assert_eq!(ac.filtered, vec!["split-horizontal", "split-vertical"]);
    let ac = AutoComplete::new(&typed("xyz"), &buffers(1), &None).unwrap();
    assert!(ac.filtered.is_empty());
    assert!(AutoComplete::new(&typed("split"), &buffers(1), &None).is_none());
}

#[test]
fn an_argument_is_completed_by_its_kind() {
    let ac = AutoComplete::new(&typed("bs "), &buffers(3), &None).unwrap();
    assert_eq!(ac.filtered, vec!["0", "1", "2"]);
    let listed = names(&["b", "a", "ab"]);
    let ac = AutoComplete::new(&typed("cd "), &buffers(1), &listed).unwrap();
    assert_eq!(ac.filtered, vec!["ab", "a", "b"]);
    let ac = AutoComplete::new(&typed("open! a"), &buffers(1), &listed).unwrap();
    assert_eq!(ac.filtered, vec!["ab", "a"]);
    assert!(AutoComplete::new(&typed("cd "), &buffers(1), &None).is_none());
}

#[test]
fn a_line_tells_what_it_needs_listed() {
    assert!(wanted_listing("cd x") == Listing::Directories);
    assert!(wanted_listing("w") == Listing::Files);
    assert!(wanted_listing("bs ") == Listing::Nothing);
    assert!(wanted_listing("") == Listing::Nothing);
}

#[test]
fn the_selection_of_the_list_moves_and_stops_at_its_ends() {
    let mut ac = AutoComplete::new(&CmdLine::new(), &buffers(1), &None).unwrap();
    ac.select_prev();
    assert_eq!(ac.selected, Some(11));
    ac.select_next();
    assert_eq!(ac.selected, Some(11));
    ac.select_prev_col(7);
    assert_eq!(ac.selected, Some(5));
    ac.select_next_col(7);
    assert_eq!(ac.selected, Some(11));
    ac.selected = None;
    ac.select_next();
    assert_eq!(ac.selected, Some(0));
    ac.select_prev();
    assert_eq!(ac.selected, Some(0));
    ac.selected = None;
    ac.select_next_col(7);
    assert_eq!(ac.selected, Some(6));
    ac.filtered.clear();
    ac.selected = None;
    ac.select_next();
    assert_eq!(ac.selected, None);
}

#[test]
fn completing_replaces_the_word_at_the_cursor() {
    let mut l = typed("open sr");
    let mut ac = AutoComplete::new(&l, &buffers(1), &names(&["src/ä.rs"])).unwrap();
    assert!(ac.filtered == vec!["src/ä.rs"]);
    ac.select_next();
    ac.complete(&mut l);
    assert_eq!(l.input, "open src/ä.rs");
    assert_eq!(l.cursor, l.input.len());
    ac.selected = None;
    ac.complete(&mut l);
    assert_eq!(l.input, "open ");
}
