use modal_editor::buffers::{
    Buffer, BufferIdx, Buffers, Edit, Found, IS_SCRATCH, NEW_FILE, NON_NAVIGATABLE, READ_ONLY,
};
use modal_editor::edits;
use modal_editor::errors::EditorErr;
use modal_editor::layout::Rect;
use modal_editor::views::{Mode, TextView};

const RECT: Rect = Rect { x: 0, y: 0, h: 10, w: 45 };

fn pane(text: &str) -> (TextView, Buffer) {
    let found = Found::Content(text.to_string(), false);
    let buffer = Buffer::new(Some("f".to_string()), 0, found);
    (TextView::new(BufferIdx { idx: 0 }), buffer)
}

fn text(b: &Buffer) -> String {
    b.buf.to_string()
}

fn message<T>(r: Result<T, EditorErr>) -> String {
    match r {
        Err(EditorErr::Msg(s)) => s,
        _ => panic!("no message"),
    }
}

#[test]
fn a_buffer_notes_how_it_came_about() {
    let b = Buffer::new(None, IS_SCRATCH, Found::Missing);
    assert!(b.check_flag(IS_SCRATCH) && b.check_flag(NEW_FILE));
    assert!(!b.check_flag(READ_ONLY) && !b.check_flag(NON_NAVIGATABLE));
    assert_eq!(text(&b), "");
    let b = Buffer::new(Some("a".to_string()), 0, Found::Missing);
    assert_eq!(b.flags, NEW_FILE);
    let b = Buffer::new(Some("a".to_string()), 0, Found::Content("x\ny".to_string(), true));
    assert_eq!(b.flags, READ_ONLY);
    assert_eq!(text(&b), "x\ny");
    assert_eq!(b.file.as_deref(), Some("a"));
}

#[test]
fn a_text_is_put_in_at_a_place() {
    let (_, mut b) = pane("aäc");
    b.insert(7, 2, 'b');
    assert_eq!(text(&b), "aäbc");
    assert_eq!((b.last_off, b.last_cursor), (7, 2));
    b.insert_string(1, 0, "x€");
    assert_eq!(text(&b), "x€aäbc");
    assert_eq!((b.last_off, b.last_cursor), (1, 0));
}

#[test]
fn a_free_slot_is_taken_first() {
    let mut all = Buffers::new();
    for name in ["a", "b", "c"] {
        let b = Buffer::new(Some(name.to_string()), 0, Found::Content("t".to_string(), false));
        all.push(b, Some(format!("/{name}")));
    }
    assert_eq!(all.len(), 3);
    assert!(all.get_by_path(&"/b".to_string()) == Some(BufferIdx { idx: 1 }));
    assert!(all.get_by_path(&"b".to_string()).is_none());
    all.remove(BufferIdx { idx: 1 });
    all.remove(BufferIdx { idx: 0 });
    assert_eq!(all.get(BufferIdx { idx: 1 }).generation, 1);
    assert_eq!(text(all.get(BufferIdx { idx: 1 })), "");
    assert_eq!(all.get(BufferIdx { idx: 1 }).file.as_deref(), Some("b"));
    assert!(all.push(Buffer::new(None, 0, Found::Missing), None) == BufferIdx { idx: 1 });
    assert!(all.push(Buffer::new(None, 0, Found::Missing), None) == BufferIdx { idx: 0 });
    assert!(all.push(Buffer::new(None, 0, Found::Missing), None) == BufferIdx { idx: 3 });
}

#[test]
fn typing_puts_characters_in_front_of_the_line_break() {
    let (mut v, mut b) = pane("ab\ncd\n");
    v.cursor = 3;
    for c in ['x', 'y'] {
        edits::insert_char(&mut v, &mut b, c);
    }
    assert_eq!(text(&b), "ab\nxycd\n");
    assert_eq!((v.cursor, v.prefered_x), (5, 2));
    assert_eq!(b.undo.len(), 1);
    assert!(matches!(&b.undo[0], Edit::Insert { idx: 3, text } if text == "xy"));
}

#[test]
fn typing_elsewhere_is_another_edit() {
    let (mut v, mut b) = pane("abcdef\n");
    edits::insert_char(&mut v, &mut b, '1');
    v.cursor = 5;
    edits::insert_char(&mut v, &mut b, '2');
    assert_eq!(text(&b), "1abcd2ef\n");
    assert_eq!(b.undo.len(), 2);
    v.cursor = 0;
    edits::insert_char(&mut v, &mut b, '3');
    assert_eq!(b.undo.len(), 3);
}

#[test]
fn the_end_of_a_text_without_line_break_holds_the_cursor_back() {
    let (mut v, mut b) = pane("");
    edits::insert_char(&mut v, &mut b, 'a');
    assert_eq!(v.cursor, 0);
    edits::insert_char(&mut v, &mut b, 'b');
    assert_eq!(text(&b), "ba");
    assert_eq!(v.cursor, 1);
}

#[test]
fn a_line_break_moves_the_cursor_to_the_next_line() {
    let (mut v, mut b) = pane("abcd\n");
    v.cursor = 2;
    edits::new_line(&mut v, &mut b, &RECT);
    assert_eq!(text(&b), "ab\ncd\n");
    assert_eq!(v.cursor, 3);
    assert!(matches!(&b.undo[0], Edit::Insert { idx: 2, text } if text == "\n"));
}

#[test]
fn taking_out_goes_backwards_and_is_one_edit() {
    let (mut v, mut b) = pane("ab\ncd\n");
    v.mode = Mode::Insert;
    v.cursor = 4;
    edits::delete(&mut v, &mut b, &RECT);
    edits::delete(&mut v, &mut b, &RECT);
    assert_eq!(text(&b), "abd\n");
    assert_eq!((v.cursor, v.prefered_x), (2, 2));
    assert_eq!(b.undo.len(), 1);
    assert!(matches!(&b.undo[0], Edit::Delete { idx: 2, text } if text == "\nc"));
    v.cursor = 0;
    edits::delete(&mut v, &mut b, &RECT);
    assert_eq!(text(&b), "abd\n");
}

#[test]
fn in_normal_mode_the_character_at_the_cursor_goes() {
    let (mut v, mut b) = pane("abc\n");
    v.cursor = 1;
    edits::delete(&mut v, &mut b, &RECT);
    assert_eq!(text(&b), "ac\n");
    assert_eq!(v.cursor, 1);
}

#[test]
fn a_selection_goes_as_a_whole() {
    let (mut v, mut b) = pane("one two three\n");
    v.mode = Mode::Visual;
    v.selection = Some((4, 8));
    v.cursor = 7;
    edits::delete(&mut v, &mut b, &RECT);
    assert_eq!(text(&b), "one three\n");
    assert_eq!(v.cursor, 4);
    assert!(v.selection.is_none() && v.mode == Mode::Normal);
    assert!(matches!(&b.undo[0], Edit::Delete { idx: 4, text } if text == "two "));
}

#[test]
fn what_was_typed_and_taken_out_is_taken_back_and_made_again() {
    let (mut v, mut b) = pane("abc\n");
    v.cursor = 1;
    edits::insert_char(&mut v, &mut b, 'x');
    edits::insert_char(&mut v, &mut b, '€');
    v.mode = Mode::Insert;
    v.cursor = 4;
    edits::delete(&mut v, &mut b, &RECT);
    edits::new_line(&mut v, &mut b, &RECT);
    assert_eq!(text(&b), "ax€\nc\n");
    let mut seen = vec![text(&b)];
    while edits::undo(&mut v, &mut b).is_ok() {
        seen.push(text(&b));
    }
    assert_eq!(seen, vec!["ax€\nc\n", "ax€c\n", "ax€bc\n", "abc\n"]);
    assert_eq!(v.cursor, 1);
    assert_eq!(b.undo.len(), 0);
    seen.pop();
    while edits::redo(&mut v, &mut b, &RECT).is_ok() {
        assert_eq!(Some(text(&b)), seen.pop());
    }
    assert!(seen.is_empty());
    assert_eq!(b.undo.len(), 3);
}

#[test]
fn empty_stacks_are_told() {
    let (mut v, mut b) = pane("abc\n");
    v.selection = Some((0, 1));
    assert_eq!(message(edits::undo(&mut v, &mut b)), "undo stack is empty");
    assert!(v.selection.is_none());
    assert_eq!(message(edits::redo(&mut v, &mut b, &RECT)), "redo stack is empty");
}

#[test]
fn a_new_edit_forgets_what_was_taken_back() {
    let (mut v, mut b) = pane("abc\n");
    edits::insert_char(&mut v, &mut b, 'x');
    assert!(edits::undo(&mut v, &mut b).is_ok());
    assert_eq!(b.redo.len(), 1);
    edits::insert_char(&mut v, &mut b, 'y');
    assert_eq!(b.redo.len(), 0);
}

#[test]
fn a_paste_from_outside_goes_behind_the_cursor() {
    let (mut v, mut b) = pane("abc\n");
    v.cursor = 0;
    edits::paste_clipboard(&mut v, &mut b, &"x€".to_string());
    assert_eq!(text(&b), "ax€bc\n");
    assert_eq!(v.cursor, 2);
    assert!(edits::undo(&mut v, &mut b).is_ok());
    assert_eq!(text(&b), "abc\n");
    v.cursor = 4;
    edits::paste_clipboard(&mut v, &mut b, &"z".to_string());
    assert_eq!(text(&b), "abc\nz");
}

#[test]
fn a_paste_of_what_was_yanked_is_only_recorded() {
    let (mut v, mut b) = pane("abc\n");
    edits::paste(&mut v, &mut b, &"xy".to_string());
    assert_eq!(text(&b), "abc\n");
    assert_eq!(v.cursor, 2);
    assert!(matches!(&b.undo[0], Edit::Insert { idx: 1, text } if text == "xy"));
}

#[test]
fn a_selection_is_read_from_either_end() {
    let (_, b) = pane("aä€d");
    assert_eq!(edits::yanked((1, 3), &b), "ä€");
    assert_eq!(edits::yanked((3, 1), &b), "ä€");
    assert_eq!(edits::yanked((2, 2), &b), "");
}

#[test]
fn up_and_down_keep_the_column() {
    let (mut v, b) = pane("abcdef\nxy\nabcdef\n");
    for _ in 0..4 {
        v.move_right(&b);
    }
    assert_eq!((v.cursor, v.prefered_x), (4, 4));
    v.move_down(&RECT, &b);
    assert_eq!(v.cursor, 9);
    v.move_down(&RECT, &b);
    assert_eq!(v.cursor, 14);
    v.move_up(&RECT, &b);
    v.move_up(&RECT, &b);
    assert_eq!(v.cursor, 4);
    v.move_up(&RECT, &b);
    assert_eq!(v.cursor, 4);
}

#[test]
fn left_and_right_stay_on_the_line() {
    let (mut v, b) = pane("ab\ncd\n");
    v.cursor = 3;
    v.move_left(&b);
    assert_eq!(v.cursor, 3);
    for _ in 0..5 {
        v.move_right(&b);
    }
    assert_eq!(v.cursor, 5);
    v.selection = Some((3, 4));
    v.move_left(&b);
    assert_eq!(v.cursor, 4);
    assert!(v.selection.is_none());
}

#[test]
fn lines_end_where_ropes_end_them() {
    let (mut v, b) = pane("a\r\nb\u{2028}c\u{b}d\n");
    v.move_down(&RECT, &b);
    assert_eq!(v.cursor, 3);
    v.move_down(&RECT, &b);
    assert_eq!(v.cursor, 5);
    v.move_down(&RECT, &b);
    assert_eq!(v.cursor, 7);
    v.move_down(&RECT, &b);
    assert_eq!(v.cursor, 9);
    v.move_down(&RECT, &b);
    assert_eq!(v.cursor, 9);
}

#[test]
fn a_selection_is_stretched() {
    let (mut v, b) = pane("abcd\nefgh\n");
    v.cursor = 1;
    v.selection = Some((1, 2));
    v.move_selection_right(&b);
    assert_eq!((v.cursor, v.selection), (2, Some((1, 3))));
    v.move_selection_down(&RECT, &b);
    assert_eq!((v.cursor, v.selection), (7, Some((1, 8))));
    v.move_selection_left(&b);
    assert_eq!((v.cursor, v.selection), (6, Some((1, 7))));
    v.move_selection_up(&RECT, &b);
    assert_eq!((v.cursor, v.selection), (1, Some((1, 2))));
    v.move_selection_left(&b);
    assert_eq!((v.cursor, v.selection), (0, Some((0, 2))));
}

#[test]
fn a_view_scrolls_to_its_cursor() {
    let lines = "x\n".repeat(30);
    let (mut v, b) = pane(&lines);
    for _ in 0..20 {
        v.move_down(&RECT, &b);
    }
    assert_eq!(v.cursor, 40);
    assert_eq!(v.off, 12);
    for _ in 0..15 {
        v.move_up(&RECT, &b);
    }
    assert_eq!(v.off, 5);
}

#[test]
fn folded_lines_take_room() {
    let (mut v, b) = pane(&format!("{}\nb\nc\n", "a".repeat(200)));
    v.move_down(&RECT, &b);
    assert_eq!(v.off, 0);
    let small = Rect { x: 0, y: 0, h: 6, w: 45 };
    v.move_down(&small, &b);
    assert_eq!(v.off, 2);
}

#[test]
fn a_narrow_view_cannot_fold() {
    let (mut v, b) = pane("aa\nbb\n");
    let narrow = Rect { x: 0, y: 0, h: 6, w: 5 };
    assert!(!v.may_move_down(&narrow, &b));
    assert!(v.may_move_up(&narrow, &b));
    assert!(v.may_move_down(&RECT, &b));
    v.cursor = 99;
    assert!(!v.may_move_up(&RECT, &b));
}

#[test]
fn an_edit_beyond_the_text_cannot_be_taken_back() {
    let e = Edit::Insert { idx: 1, text: "ab".to_string() };
    assert!(edits::may_revert(&e, 3));
    assert!(!edits::may_revert(&e, 2));
    let e = Edit::Delete { idx: 1, text: "ab".to_string() };
    assert!(edits::may_revert(&e, 1));
    assert!(!edits::may_revert(&e, 0));
    let far = Edit::Insert { idx: usize::MAX, text: "a".to_string() };
    assert!(!edits::may_extend(&vec![far]));
    assert!(edits::may_extend(&vec![]));
}

#[test]
fn scrolling_twice_is_scrolling_once() {
    let (mut v, b) = pane(&"x\n".repeat(40));
    v.cursor = 60;
    v.scroll(&RECT, &b);
    assert_eq!(v.off, 22);
    v.scroll(&RECT, &b);
    assert_eq!(v.off, 22);
    v.off = usize::MAX;
    v.scroll(&RECT, &b);
    assert_eq!(v.off, 30);
    v.cursor = 66;
    v.scroll(&RECT, &b);
    assert_eq!(v.off, 30);
}
