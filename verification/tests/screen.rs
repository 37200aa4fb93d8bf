use modal_editor::editor::Editor;
use modal_editor::paint::Frame;
use modal_editor::screen::{
    back_color, selection_color, text_color, Cell, Color, DrawOp, ScreenBuffer,
};
use modal_editor::start::StartFile;
use modal_editor::buffers::Found;
use modal_editor::terminal::{CursorStyle, KeyCode, KeyEvent};
use modal_editor::requests::Reply;

fn row(s: &ScreenBuffer, y: usize) -> String {
    let w = s.width as usize;
    s.cells[y * w..(y + 1) * w].iter().map(|c| c.c).collect()
}

fn plain(c: char) -> Cell {
    Cell { c, fg: text_color(), bg: back_color() }
}

/// What a terminal shows after the steps of a frame.
fn run(ops: &[DrawOp], cells: &mut [Cell], width: usize) {
    let (mut x, mut y) = (0usize, 0usize);
    let (mut fg, mut bg) = (text_color(), back_color());
    for op in ops {
        match op {
            DrawOp::MoveTo(a, b) => (x, y) = (*a as usize, *b as usize),
            DrawOp::SetForeground(c) => fg = *c,
            DrawOp::SetBackground(c) => bg = *c,
            DrawOp::Print(s) => {
                for c in s.chars() {
                    cells[y * width + x] = Cell { c, fg, bg };
                    x += 1;
                }
            }
            DrawOp::ResetColor => {}
        }
    }
}

fn started(text: &str, width: u16, height: u16) -> Editor {
    let file = StartFile {
        path: "notes".to_string(),
        resolved: None,
        found: Found::Content(text.to_string(), false),
    };
    Editor::start(width, height, "/home".to_string(), Some(file))
}

fn painted(e: &Editor, old: &mut ScreenBuffer, new: &mut ScreenBuffer) -> Frame {
    e.nodes
        .try_paint(&e.focus, &e.cmd_line, &e.views, &e.buffers, old, new, &e.cwd)
        .expect("fits")
}

fn press(e: &mut Editor, c: char, alt: bool) {
    let key = KeyEvent { code: KeyCode::Char(c), alt };
    assert!(e.is_ready(key, &Reply::Nothing));
    assert!(e.key_to_exec(key, Reply::Nothing).is_ok());
}

#[test]
fn the_colours_are_what_they_are() {
    assert!(text_color() == Color::White);
    assert!(back_color() == Color::Rgb { r: 0, g: 0, b: 0 });
    assert!(selection_color() == Color::Rgb { r: 20, g: 140, b: 240 });
}

#[test]
fn a_screen_is_filled() {
    let s = ScreenBuffer::filled(4, 3, '_');
    assert_eq!(s.cells.len(), 12);
    assert!(s.cells.iter().all(|c| *c == plain('_')));
    assert!(s.has_cell_at(3, 2));
    assert!(!s.has_cell_at(4, 2));
}

#[test]
fn a_text_is_cut_at_the_end_of_its_row() {
    let mut s = ScreenBuffer::filled(6, 2, ' ');
    s.set_string_xy(4, 0, "abcd", text_color(), selection_color());
    assert_eq!(row(&s, 0), "    ab");
    assert_eq!(row(&s, 1), "      ");
    assert!(s.cells[5].bg == selection_color());
    assert!(s.cells[3].bg == back_color());
    s.set_string_xy(1, 1, "ä€", text_color(), back_color());
    assert_eq!(row(&s, 1), " ä€   ");
    s.set_cell_xy(0, 1, plain('x'));
    assert_eq!(row(&s, 1), "xä€   ");
}

#[test]
fn only_what_has_changed_is_drawn() {
    let mut old = ScreenBuffer::filled(5, 2, ' ');
    let mut new = ScreenBuffer::filled(5, 2, ' ');
    new.set_string_xy(1, 1, "ab", text_color(), back_color());
    let ops = new.print(&mut old);
    assert_eq!(ops.len(), 5);
    assert!(matches!(ops[0], DrawOp::MoveTo(1, 1)));
    assert!(matches!(ops[1], DrawOp::SetForeground(c) if c == text_color()));
    assert!(matches!(ops[2], DrawOp::SetBackground(c) if c == back_color()));
    assert!(matches!(&ops[3], DrawOp::Print(s) if s == "ab"));
    assert!(matches!(ops[4], DrawOp::ResetColor));
    assert_eq!(row(&old, 1), " ab  ");
    assert!(new.cells.iter().all(|c| *c == plain(' ')));
}

#[test]
fn drawing_the_difference_gives_the_new_picture() {
    let mut old = ScreenBuffer::filled(7, 3, '_');
    let mut terminal = old.cells.clone();
    let mut new = ScreenBuffer::filled(7, 3, ' ');
    new.set_string_xy(2, 0, "abc", text_color(), selection_color());
    new.set_string_xy(0, 2, "_____x_", text_color(), back_color());
    let wanted = new.cells.clone();
    let ops = new.print(&mut old);
    run(&ops, &mut terminal, 7);
    assert!(terminal == wanted);
    assert!(old.cells == wanted);
}

#[test]
fn a_view_is_drawn_with_its_lines_and_its_state() {
    let e = started("one\ntwo\n", 20, 6);
    let mut old = ScreenBuffer::filled(20, 6, '_');
    let mut new = ScreenBuffer::filled(20, 6, ' ');
    let frame = painted(&e, &mut old, &mut new);
    assert_eq!(row(&old, 0), "   0 one            ");
    assert_eq!(row(&old, 1), "   1 two            ");
    assert_eq!(row(&old, 2), "   2                ");
    assert_eq!(row(&old, 3), "                    ");
    assert_eq!(row(&old, 4), "NOR 1 notes         ");
    assert_eq!(row(&old, 5), "                    ");
    assert_eq!((frame.x, frame.y), (5, 0));
    assert!(frame.style == CursorStyle::SteadyBlock);
}

#[test]
fn a_buffer_without_a_file_shows_the_directory() {
    let e = Editor::start(30, 4, "/home/x".to_string(), None);
    let mut old = ScreenBuffer::filled(30, 4, '_');
    let mut new = ScreenBuffer::filled(30, 4, ' ');
    painted(&e, &mut old, &mut new);
    assert_eq!(row(&old, 2), "NOR 0 [SCRATCH] /home/x       ");
}

#[test]
fn a_long_line_is_folded() {
    let e = started("abcdefghijkl\nz\n", 10, 8);
    let mut old = ScreenBuffer::filled(10, 8, '_');
    let mut new = ScreenBuffer::filled(10, 8, ' ');
    painted(&e, &mut old, &mut new);
    assert_eq!(row(&old, 0), "   0 abcde");
    assert_eq!(row(&old, 1), "     fghij");
    assert_eq!(row(&old, 2), "     kl   ");
    assert_eq!(row(&old, 3), "   1 z    ");
}

#[test]
fn a_last_line_without_a_line_break_is_shown_whole() {
    let mut e = started("ab\nxyz", 20, 5);
    let mut old = ScreenBuffer::filled(20, 5, '_');
    let mut new = ScreenBuffer::filled(20, 5, ' ');
    painted(&e, &mut old, &mut new);
    assert_eq!(row(&old, 0), format!("   0 {:<15}", "ab"));
    assert_eq!(row(&old, 1), format!("   1 {:<15}", "xyz"));
    press(&mut e, 'j', false);
    press(&mut e, 'v', false);
    let mut new = ScreenBuffer::filled(20, 5, ' ');
    painted(&e, &mut old, &mut new);
    assert!(old.cells[25] == Cell { c: 'x', fg: back_color(), bg: selection_color() });
    assert!(old.cells[27] == plain('z'));
}

#[test]
fn a_selection_is_shown() {
    let mut e = started("abc\n", 20, 5);
    press(&mut e, 'l', false);
    press(&mut e, 'v', false);
    let mut old = ScreenBuffer::filled(20, 5, '_');
    let mut new = ScreenBuffer::filled(20, 5, ' ');
    let frame = painted(&e, &mut old, &mut new);
    assert!(old.cells[6] == Cell { c: 'b', fg: back_color(), bg: selection_color() });
    assert!(old.cells[5] == plain('a'));
    assert!(old.cells[7] == plain('c'));
    assert_eq!((frame.x, frame.y), (6, 0));
    assert!(frame.style == CursorStyle::SteadyUnderScore);
    assert_eq!(row(&old, 3), "VIS 1 notes         ");
}

#[test]
fn the_completion_list_is_drawn_over_the_text() {
    let mut e = started("abc\n", 40, 12);
    press(&mut e, 'k', true);
    let mut old = ScreenBuffer::filled(40, 12, '_');
    let mut new = ScreenBuffer::filled(40, 12, ' ');
    let frame = painted(&e, &mut old, &mut new);
    assert_eq!(row(&old, 0), format!("   0 {:<35}", "abc"));
    assert_eq!(row(&old, 4), "─".repeat(40));
    assert_eq!(row(&old, 5), format!("{:<17}{:<23}", "cd", "pwd"));
    assert_eq!(row(&old, 6), format!("{:<40}", "quit"));
    assert_eq!(row(&old, 11), format!("{:<40}", "buffer-switch"));
    assert_eq!((frame.x, frame.y), (0, 11));
    assert!(frame.style == CursorStyle::SteadyBar);
}

#[test]
fn a_screen_too_small_for_a_view_is_refused() {
    let e = started("abc\n", 4, 5);
    let mut old = ScreenBuffer::filled(4, 5, '_');
    let mut new = ScreenBuffer::filled(4, 5, ' ');
    let frame = e.nodes.try_paint(
        &e.focus, &e.cmd_line, &e.views, &e.buffers, &mut old, &mut new, &e.cwd,
    );
    assert!(frame.is_none());
    assert!(old.cells.iter().all(|c| *c == plain('_')));
}

#[test]
fn painting_twice_draws_nothing_new() {
    let e = started("abc\n", 20, 5);
    let mut old = ScreenBuffer::filled(20, 5, '_');
    let mut new = ScreenBuffer::filled(20, 5, ' ');
    let first = e.nodes.paint(
        &e.focus, &e.cmd_line, &e.views, &e.buffers, &mut old, &mut new, &e.cwd,
    );
    assert!(first.ops.len() > 1);
    let second = painted(&e, &mut old, &mut new);
    assert_eq!(second.ops.len(), 1);
}
