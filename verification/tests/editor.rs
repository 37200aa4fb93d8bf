use modal_editor::buffers::{BufferIdx, Edit, Found, NON_NAVIGATABLE, READ_ONLY};
use modal_editor::editor::Editor;
use modal_editor::errors::EditorErr;
use modal_editor::nodes::Component;
use modal_editor::requests::{DirFound, FileFound, Reply, Request};
use modal_editor::auto_complete::Listing;
use modal_editor::start::StartFile;
use modal_editor::step::Outcome;
use modal_editor::terminal::{KeyCode, KeyEvent};
use modal_editor::tree::LeafIdx;
use modal_editor::view_cmds::clipboard_text;
use modal_editor::views::Mode;
use modal_editor::cmd_line;

fn started(text: &str) -> Editor {
    let file = StartFile {
        path: "notes".to_string(),
        resolved: Some("/home/notes".to_string()),
        found: Found::Content(text.to_string(), false),
    };
    Editor::start(80, 24, "/home".to_string(), Some(file))
}

fn key(code: KeyCode) -> KeyEvent {
    KeyEvent { code, alt: false }
}

fn alt(c: char) -> KeyEvent {
    KeyEvent { code: KeyCode::Char(c), alt: true }
}

fn press_with(e: &mut Editor, k: KeyEvent, reply: Reply) -> Result<(), EditorErr> {
    assert!(e.may_ask(k));
    assert!(e.is_ready(k, &reply));
    e.key_to_exec(k, reply)
}

fn press(e: &mut Editor, k: KeyEvent) {
    assert!(press_with(e, k, Reply::Nothing).is_ok());
}

fn keys(e: &mut Editor, s: &str) {
    for c in s.chars() {
        press(e, key(KeyCode::Char(c)));
    }
}

/// Enters the command line from a view and types a command.
fn command(e: &mut Editor, line: &str) {
    press(e, alt('k'));
    keys(e, line);
}

fn enter(e: &mut Editor, reply: Reply) -> Result<(), EditorErr> {
    press_with(e, key(KeyCode::Enter), reply)
}

/// Carries a command out that is stopped, and tells why. Gives what the line
/// then shows.
fn told(e: &mut Editor, line: &str, reply: Reply) -> String {
    command(e, line);
    match enter(e, reply) {
        Err(stop) => {
            assert!(matches!(e.report(stop), Outcome::Continue));
            e.cmd_line.input.clone()
        }
        Ok(()) => panic!("not stopped: {line}"),
    }
}

fn done(e: &mut Editor, line: &str) {
    command(e, line);
    assert!(enter(e, Reply::Nothing).is_ok());
}

fn view_of(e: &Editor) -> usize {
    match e.nodes.get_leaf(e.focus).comp {
        Component::View(v) => v.0,
        _ => panic!("no view"),
    }
}

fn text(e: &Editor, idx: usize) -> String {
    e.buffers.get(BufferIdx { idx }).buf.to_string()
}

fn rect(e: &Editor, l: LeafIdx) -> (u16, u16, u16, u16) {
    let r = &e.nodes.get_leaf(l).rect;
    (r.x, r.y, r.w, r.h)
}

#[test]
fn the_editor_starts_with_one_view_and_the_command_line() {
    let e = started("a\n");
    assert!(e.focus == LeafIdx(0));
    assert_eq!(e.buffers.len(), 2);
    assert_eq!(e.views.0[0].buf.idx, 1);
    assert_eq!(text(&e, 1), "a\n");
    assert_eq!(rect(&e, LeafIdx(0)), (0, 0, 80, 23));
    assert_eq!(rect(&e, LeafIdx(1)), (0, 23, 80, 1));
    assert_eq!(e.nodes.root_count(), 3);
    let e = Editor::start(80, 24, "/".to_string(), None);
    assert_eq!(e.buffers.len(), 1);
    assert_eq!(e.views.0[0].buf.idx, 0);
}

#[test]
fn the_editor_follows_the_size_of_the_screen() {
    let mut e = started("a\n");
    e.resize(100, 40);
    assert_eq!(rect(&e, LeafIdx(0)), (0, 0, 100, 39));
    assert_eq!(rect(&e, LeafIdx(1)), (0, 39, 100, 1));
}

#[test]
fn a_screen_may_have_any_size() {
    let mut e = Editor::start(65535, 1, "/".to_string(), None);
    assert_eq!(rect(&e, LeafIdx(0)), (0, 0, 65535, 0));
    e.resize(65535, 65535);
    assert_eq!(rect(&e, LeafIdx(0)), (0, 0, 65535, 65534));
    press(&mut e, key(KeyCode::Char(':')));
    e.resize(0, 0);
    assert_eq!(rect(&e, LeafIdx(0)), (0, 0, 0, 0));
}

#[test]
fn a_text_is_typed_and_taken_back() {
    let mut e = started("world\n");
    keys(&mut e, "ihello");
    press(&mut e, key(KeyCode::Enter));
    press(&mut e, key(KeyCode::Esc));
    assert_eq!(text(&e, 1), "hello\nworld\n");
    assert!(e.views.0[0].mode == Mode::Normal);
    keys(&mut e, "u");
    assert_eq!(text(&e, 1), "world\n");
    keys(&mut e, "U");
    assert_eq!(text(&e, 1), "hello\nworld\n");
    keys(&mut e, "u");
    match press_with(&mut e, key(KeyCode::Char('u')), Reply::Nothing) {
        Err(stop) => assert!(matches!(e.report(stop), Outcome::Continue)),
        Ok(()) => panic!("not stopped"),
    }
    assert_eq!(e.cmd_line.input, "undo stack is empty");
}

#[test]
fn a_typed_character_is_taken_back() {
    let mut e = started("ab\n");
    keys(&mut e, "li!");
    press(&mut e, key(KeyCode::Esc));
    assert_eq!(text(&e, 1), "a!b\n");
    keys(&mut e, "u");
    assert_eq!(text(&e, 1), "ab\n");
    assert_eq!(e.views.0[0].cursor, 1);
    assert!(e.views.0[0].mode == Mode::Normal);
    assert!(e.views.0[0].selection.is_none());
    let b = e.buffers.get(BufferIdx { idx: 1 });
    assert!(b.undo.is_empty());
    assert!(matches!(&b.redo[..], [Edit::Delete { idx: 1, text }] if text == "!"));
    keys(&mut e, "Uu");
    assert_eq!(text(&e, 1), "ab\n");
    keys(&mut e, "U");
    assert_eq!(text(&e, 1), "a!b\n");
    assert_eq!(e.views.0[0].cursor, 1);
}

#[test]
fn a_selection_is_yanked() {
    let mut e = started("abc def\n");
    keys(&mut e, "vlly");
    assert_eq!(e.clipboard.as_deref(), Some("abc"));
    assert!(e.views.0[0].mode == Mode::Normal);
    assert!(e.views.0[0].selection.is_none());
}

#[test]
fn a_selection_goes_to_the_clipboard_of_the_system() {
    let mut e = started("abc\n");
    keys(&mut e, "vl");
    let k = key(KeyCode::Char('Y'));
    assert!(matches!(e.request(k), Request::WriteClipboard(s) if s == "ab"));
    assert!(!e.is_ready(k, &Reply::Done(Err("no tool".to_string()))));
    assert!(press_with(&mut e, k, Reply::Done(Ok(()))).is_ok());
    assert!(e.views.0[0].selection.is_none());
    assert_eq!(clipboard_text("ab\n\n"), "ab\n");
    assert_eq!(clipboard_text("ab"), "ab");
}

#[test]
fn the_clipboard_of_the_system_is_pasted() {
    let mut e = started("ab\n");
    let k = key(KeyCode::Char('P'));
    assert!(matches!(e.request(k), Request::ReadClipboard));
    assert!(press_with(&mut e, k, Reply::Clipboard(Some("xy".to_string()))).is_ok());
    assert_eq!(text(&e, 1), "axyb\n");
    assert!(press_with(&mut e, k, Reply::Clipboard(None)).is_ok());
    assert_eq!(text(&e, 1), "axyb\n");
}

#[test]
fn the_command_line_is_entered_with_its_list() {
    let mut e = started("a\n");
    press(&mut e, alt('k'));
    assert!(matches!(e.nodes.get_leaf(e.focus).comp, Component::AutoComplete(_)));
    press(&mut e, key(KeyCode::Esc));
    assert!(e.focus == LeafIdx(1));
    assert!(e.cmd_line.mode == cmd_line::Mode::Insert);
    press(&mut e, key(KeyCode::Esc));
    assert!(e.cmd_line.mode == cmd_line::Mode::Normal);
    press(&mut e, key(KeyCode::Esc));
    assert!(e.focus == LeafIdx(0));
}

#[test]
fn the_list_closes_when_nothing_is_left_to_complete() {
    let mut e = started("a\n");
    command(&mut e, "pw");
    assert!(matches!(e.nodes.get_leaf(e.focus).comp, Component::AutoComplete(_)));
    keys(&mut e, "d");
    assert!(e.focus == LeafIdx(1));
    assert_eq!(e.cmd_line.input, "pwd");
    press(&mut e, key(KeyCode::Backspace));
    assert_eq!(e.cmd_line.input, "pw");
    assert!(e.focus == LeafIdx(1));
    keys(&mut e, "x");
    assert!(matches!(e.nodes.get_leaf(e.focus).comp, Component::AutoComplete(_)));
    press(&mut e, key(KeyCode::Backspace));
    assert!(matches!(e.nodes.get_leaf(e.focus).comp, Component::AutoComplete(_)));
}

#[test]
fn an_entry_of_the_list_is_chosen() {
    let mut e = started("a\n");
    command(&mut e, "buf");
    press(&mut e, alt('j'));
    assert_eq!(e.cmd_line.input, "buffer-close");
    press(&mut e, alt('j'));
    assert_eq!(e.cmd_line.input, "buffer-switch");
    press(&mut e, alt('k'));
    assert_eq!(e.cmd_line.input, "buffer-close");
    press(&mut e, alt('l'));
    assert_eq!(e.cmd_line.input, "buffer-list");
    press(&mut e, alt('h'));
    assert_eq!(e.cmd_line.input, "buffer-close");
}

#[test]
fn a_line_asks_for_what_it_needs() {
    let mut e = started("a\n");
    command(&mut e, "c");
    let d = key(KeyCode::Char('d'));
    assert!(matches!(e.request(d), Request::List(Listing::Directories)));
    let names = Reply::Names(Some(vec!["src".to_string()]));
    assert!(press_with(&mut e, d, names).is_ok());
    keys(&mut e, " src");
    assert!(matches!(
        e.request(key(KeyCode::Enter)),
        Request::EnterDirectory(s) if s == "src"
    ));
}

#[test]
fn the_directory_is_told_and_changed() {
    let mut e = started("a\n");
    assert_eq!(told(&mut e, "pwd", Reply::Nothing), "/home");
    assert!(e.focus == LeafIdx(0));
    let there = Reply::Directory(DirFound::Directory("/home/src".to_string()));
    assert_eq!(told(&mut e, "cd src", there), "/home/src");
    assert_eq!(e.cwd, "/home/src");
    let missing = Reply::Directory(DirFound::Missing);
    assert_eq!(told(&mut e, "cd x", missing), "path does not exist");
    let file = Reply::Directory(DirFound::NotDirectory);
    assert_eq!(told(&mut e, "cd x", file), "path is not directory");
    assert_eq!(e.cwd, "/home/src");
}

#[test]
fn what_is_no_command_is_shown_in_the_line() {
    let mut e = started("a\n");
    assert_eq!(
        told(&mut e, "nope", Reply::Nothing),
        "nope is not a command nor command alias"
    );
    assert!(!e.cmd_line.error);
}

#[test]
fn dirty_buffers_hold_the_editor_back() {
    let mut e = started("a\n");
    keys(&mut e, "ix");
    press(&mut e, key(KeyCode::Esc));
    assert_eq!(told(&mut e, "q", Reply::Nothing), "cant quit dirty buffers: [1]");
    command(&mut e, "q!");
    match enter(&mut e, Reply::Nothing) {
        Err(stop) => assert!(matches!(e.report(stop), Outcome::Stop(None))),
        Ok(()) => panic!("goes on"),
    }
}

#[test]
fn every_stop_has_its_outcome() {
    let mut e = started("a\n");
    let b = BufferIdx { idx: 3 };
    assert!(matches!(e.report(EditorErr::Dirty(b)), Outcome::Continue));
    assert_eq!(e.cmd_line.input, "buffer:3 is dirty");
    assert!(matches!(e.report(EditorErr::ReadOnly(b)), Outcome::Continue));
    assert_eq!(e.cmd_line.input, "buffer:3is read only");
    assert!(matches!(e.report(EditorErr::InvalidBuffer), Outcome::Continue));
    assert_eq!(e.cmd_line.input, "index is invalid");
    let noted = e.report(EditorErr::Log("seen".to_string()));
    assert!(matches!(noted, Outcome::Log(s) if s == "seen"));
    let ended = e.report(EditorErr::Io("gone".to_string()));
    assert!(matches!(ended, Outcome::Stop(Some(s)) if s == "IO error: gone"));
    assert!(matches!(e.report(EditorErr::Quit), Outcome::Stop(None)));
    assert_eq!(e.cmd_line.input, "index is invalid");
}

#[test]
fn a_split_puts_another_view_beside() {
    let mut e = started("a\n");
    done(&mut e, "s");
    assert_eq!(view_of(&e), 1);
    assert_eq!(e.views.0[1].buf.idx, 0);
    assert_eq!(rect(&e, LeafIdx(0)), (0, 0, 40, 23));
    assert_eq!(rect(&e, e.focus), (40, 0, 40, 23));
    keys(&mut e, "H");
    assert_eq!(view_of(&e), 0);
    keys(&mut e, "L");
    assert_eq!(view_of(&e), 1);
}

#[test]
fn a_view_is_divided_and_closed() {
    let mut e = started("a\n");
    done(&mut e, "sh");
    let upper = e.focus;
    assert_eq!(view_of(&e), 0);
    assert_eq!(rect(&e, upper), (0, 0, 80, 11));
    keys(&mut e, "J");
    assert_eq!(view_of(&e), 1);
    assert_eq!(rect(&e, e.focus), (0, 11, 80, 11));
    done(&mut e, "vc");
    assert_eq!(view_of(&e), 0);
    done(&mut e, "vc");
    assert_eq!(view_of(&e), 2);
    assert_eq!(e.views.0[2].buf.idx, 0);
    assert_eq!(rect(&e, e.focus), (0, 0, 80, 23));
    done(&mut e, "sv");
    keys(&mut e, "L");
    assert_eq!(rect(&e, e.focus), (40, 0, 40, 23));
}

fn found(path: &str, text: &str) -> Reply {
    Reply::File(FileFound {
        path: format!("/home/{path}"),
        resolved: Some(format!("/home/{path}")),
        content: Ok(Found::Content(text.to_string(), false)),
    })
}

#[test]
fn files_are_opened_once() {
    let mut e = started("a\nb\n");
    keys(&mut e, "j");
    command(&mut e, "o x");
    assert!(matches!(e.request(key(KeyCode::Enter)), Request::OpenFile(s) if s == "x"));
    assert!(enter(&mut e, found("x", "xxx\n")).is_ok());
    assert_eq!(e.views.0[0].buf.idx, 2);
    assert_eq!(text(&e, 2), "xxx\n");
    assert_eq!(e.views.0[0].cursor, 0);
    command(&mut e, "o notes");
    assert!(enter(&mut e, found("notes", "other")).is_ok());
    assert_eq!(e.views.0[0].buf.idx, 1);
    assert_eq!(text(&e, 1), "a\nb\n");
    done(&mut e, "o");
    assert_eq!(e.views.0[0].buf.idx, 3);
    assert_eq!(text(&e, 3), "");
}

#[test]
fn a_file_that_cannot_be_read_ends_the_editor() {
    let mut e = started("a\n");
    command(&mut e, "o x");
    let reply = Reply::File(FileFound {
        path: "/home/x".to_string(),
        resolved: None,
        content: Err("denied".to_string()),
    });
    match enter(&mut e, reply) {
        Err(stop) => {
            let outcome = e.report(stop);
            assert!(matches!(outcome, Outcome::Stop(Some(s)) if s == "IO error: denied"));
        }
        Ok(()) => panic!("goes on"),
    }
}

#[test]
fn a_buffer_is_written() {
    let mut e = started("a\n");
    keys(&mut e, "ix");
    press(&mut e, key(KeyCode::Esc));
    command(&mut e, "w");
    let request = e.request(key(KeyCode::Enter));
    assert!(matches!(request, Request::WriteFile(p, s) if p == "notes" && s == "xa\n"));
    assert!(enter(&mut e, Reply::Done(Ok(()))).is_ok());
    assert!(e.buffers.get(BufferIdx { idx: 1 }).undo.is_empty());
    command(&mut e, "w other");
    let request = e.request(key(KeyCode::Enter));
    assert!(matches!(request, Request::WriteFile(p, _) if p == "other"));
    match enter(&mut e, Reply::Done(Err("full".to_string()))) {
        Err(EditorErr::Io(s)) => assert_eq!(s, "full"),
        _ => panic!("no error"),
    }
}

#[test]
fn some_buffers_are_not_written() {
    let mut e = started("a\n");
    e.buffers.get_mut(BufferIdx { idx: 1 }).flags = READ_ONLY;
    assert_eq!(told(&mut e, "w", Reply::Nothing), "buffer:1is read only");
    done(&mut e, "bs 0");
    assert_eq!(told(&mut e, "w", Reply::Nothing), "cant save, buffer: 0 is scratch");
    done(&mut e, "o");
    assert_eq!(told(&mut e, "w", Reply::Nothing), "new file needs name");
}

#[test]
fn a_buffer_remembers_where_it_was_left() {
    let mut e = started("a\nbc\n");
    keys(&mut e, "jl");
    assert_eq!(e.views.0[0].cursor, 3);
    done(&mut e, "bs 0");
    assert_eq!(e.views.0[0].buf.idx, 0);
    assert_eq!(e.views.0[0].cursor, 0);
    done(&mut e, "bs 1");
    assert_eq!(e.views.0[0].cursor, 3);
    assert_eq!(e.views.0[0].prefered_x, 1);
    assert!(e.focus == LeafIdx(0));
    assert_eq!(text(&e, 1), "a\nbc\n");
    assert_eq!(told(&mut e, "bs 7", Reply::Nothing), "index is invalid");
    e.buffers.get_mut(BufferIdx { idx: 0 }).flags = NON_NAVIGATABLE;
    assert_eq!(told(&mut e, "bs 0", Reply::Nothing), "buffer 0 is non navigatable");
}

#[test]
fn a_closed_buffer_is_read_again() {
    let mut e = started("a\nbc\n");
    keys(&mut e, "j");
    done(&mut e, "bc");
    assert_eq!(e.views.0[0].buf.idx, 0);
    assert_eq!(text(&e, 1), "");
    command(&mut e, "bs 1");
    let request = e.request(key(KeyCode::Enter));
    assert!(matches!(request, Request::ReloadFile(p) if p == "notes"));
    let reply = Reply::Reloaded(Some(Ok("new\n".to_string())));
    assert!(enter(&mut e, reply).is_ok());
    assert_eq!(text(&e, 1), "new\n");
    assert_eq!(e.views.0[0].buf.idx, 1);
}

#[test]
fn some_buffers_are_not_closed() {
    let mut e = started("a\n");
    assert_eq!(told(&mut e, "bc 0", Reply::Nothing), "will not close special buffer: 0");
    keys(&mut e, "ix");
    press(&mut e, key(KeyCode::Esc));
    assert_eq!(told(&mut e, "bc", Reply::Nothing), "buffer:1 is dirty");
    e.buffers.get_mut(BufferIdx { idx: 1 }).flags = READ_ONLY;
    assert_eq!(told(&mut e, "bc! 1", Reply::Nothing), "buffer:1is read only");
    e.buffers.get_mut(BufferIdx { idx: 1 }).flags = 0;
    done(&mut e, "bc!");
    assert_eq!(text(&e, 1), "");
}

#[test]
fn the_list_of_buffers_takes_no_keys() {
    let mut e = started("a\n");
    done(&mut e, "bl");
    assert!(matches!(e.nodes.get_leaf(e.focus).comp, Component::BufferList));
    let before = e.focus;
    keys(&mut e, "q");
    assert!(e.focus == before);
}

#[test]
fn the_line_is_edited_in_its_modes() {
    let mut e = started("a\n");
    press(&mut e, alt('k'));
    press(&mut e, key(KeyCode::Esc));
    keys(&mut e, "x");
    press(&mut e, key(KeyCode::Esc));
    assert_eq!(e.cmd_line.input, "x");
    press(&mut e, key(KeyCode::Esc));
    let k = key(KeyCode::Char('p'));
    assert!(matches!(e.request(k), Request::ReadClipboard));
    assert!(press_with(&mut e, k, Reply::Clipboard(Some("a\nb".to_string()))).is_ok());
    assert_eq!(e.cmd_line.input, "xab");
    keys(&mut e, "hhv");
    keys(&mut e, "l");
    let k = key(KeyCode::Char('y'));
    assert!(matches!(e.request(k), Request::WriteClipboard(s) if s == "ab"));
    assert!(press_with(&mut e, k, Reply::Done(Ok(()))).is_ok());
    assert!(e.cmd_line.mode == cmd_line::Mode::Normal);
}

#[test]
fn a_key_that_cannot_be_carried_out_is_noticed() {
    let mut e = started("abc\n");
    e.views.0[0].cursor = 99;
    assert!(!e.is_ready(key(KeyCode::Char('h')), &Reply::Nothing));
    assert!(e.is_ready(key(KeyCode::Char('i')), &Reply::Nothing));
    e.views.0[0].cursor = 0;
    command(&mut e, "cd x");
    assert!(!e.is_ready(key(KeyCode::Enter), &Reply::Nothing));
    assert!(e.is_ready(key(KeyCode::Enter), &Reply::Directory(DirFound::Missing)));
}

#[test]
fn many_keys_leave_the_tree_in_order() {
    let mut e = started("one\ntwo\nthree\n");
    for step in 0..12 {
        done(&mut e, ["s", "sv", "sh", "vc"][step % 4]);
        keys(&mut e, "LJKHjklh");
    }
    e.resize(60, 20);
    let order = e.nodes.leaves_in_order();
    assert!(order.contains(&e.focus));
    for l in order {
        let (x, y, w, h) = rect(&e, l);
        assert!(x + w <= 60 && y + h <= 20);
    }
}

#[test]
fn a_narrow_view_takes_edits_that_need_no_scrolling() {
    let file = StartFile {
        path: "notes".to_string(),
        resolved: Some("/home/notes".to_string()),
        found: Found::Content("abc\nd\n".to_string(), false),
    };
    let mut e = Editor::start(5, 10, "/home".to_string(), Some(file));
    keys(&mut e, "d");
    assert_eq!(text(&e, 1), "bc\nd\n");
    keys(&mut e, "u");
    assert_eq!(text(&e, 1), "abc\nd\n");
    keys(&mut e, "U");
    assert_eq!(text(&e, 1), "bc\nd\n");
    keys(&mut e, "vld");
    assert_eq!(text(&e, 1), "\nd\n");
    assert!(!e.is_ready(key(KeyCode::Char('j')), &Reply::Nothing));
    keys(&mut e, "i");
    assert!(!e.is_ready(key(KeyCode::Enter), &Reply::Nothing));
    press(&mut e, key(KeyCode::Backspace));
    assert_eq!(text(&e, 1), "\nd\n");
    keys(&mut e, "x");
    press(&mut e, key(KeyCode::Backspace));
    assert_eq!(text(&e, 1), "\nd\n");
    e.views.0[0].cursor = 3;
    assert!(!e.is_ready(key(KeyCode::Backspace), &Reply::Nothing));
    e.views.0[0].off = 2;
    press(&mut e, key(KeyCode::Backspace));
    assert_eq!(text(&e, 1), "\nd");
    e.views.0[0].cursor = 9;
    assert!(!e.is_ready(key(KeyCode::Backspace), &Reply::Nothing));
}

#[test]
fn the_focus_can_be_told_to_move_or_not() {
    let mut e = started("a\n");
    done(&mut e, "sv");
    assert!(e.is_ready(key(KeyCode::Char('H')), &Reply::Nothing));
    assert!(e.is_ready(key(KeyCode::Char('K')), &Reply::Nothing));
    let l = e.focus;
    e.nodes.get_mut_leaf(l).rect.x = 65535;
    e.nodes.get_mut_leaf(l).rect.w = 2;
    assert!(!e.is_ready(key(KeyCode::Char('L')), &Reply::Nothing));
    assert!(e.is_ready(key(KeyCode::Char('J')), &Reply::Nothing));
}
