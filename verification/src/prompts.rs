//! What each key does in the command line and in the completion list.
use vstd::prelude::*;
use crate::auto_complete;
use crate::auto_complete::AutoCompleteView;
use crate::cmd_line;
use crate::cmd_line::{CmdLineView, Mode};
use crate::commands;
use crate::editor::CMDLINE;
use crate::editor::EditorView;
use crate::errors::EditorErrView;
use crate::line_cmds;
use crate::line_cmds::Action;
use crate::list_cmds;
use crate::list_cmds::ListAction;
use crate::requests;
use crate::requests::{Reply, RequestView};
use crate::scene::Scene;
use crate::terminal::{KeyCode, KeyEvent};
use crate::tree::{ComponentView, LeafView, NodesView};
use crate::view_cmds;

verus! {

/// The command line has changed, and nothing else.
pub open spec fn only_line(s: Scene, done: (Scene, Option<EditorErrView>), l: CmdLineView) -> bool {
    done == (Scene { line: l, ..s }, None::<EditorErrView>)
}

pub open spec fn pressed(key: KeyEvent, c: char) -> bool {
    key.code == KeyCode::Char(c)
}

/// The names that were told, if any were.
pub open spec fn told(reply: Reply) -> Option<Seq<Seq<char>>> {
    match reply {
        Reply::Names(Some(v)) => Some(v@.map_values(|s: String| s@)),
        _ => None,
    }
}

// ---- the keys of the command line

/// A key goes to what has the focus: to the command line with its mode.
pub proof fn law_keys_in_line(e: EditorView, key: KeyEvent, reply: Reply)
    requires
        e.scene.nodes.leaves[e.scene.focus.0 as int].comp is CmdLine,
    ensures
        ({
            let action = line_cmds::action_of_key(key, e.scene.line.mode);
            &&& e.stepped(key, reply).0.scene == e.scene.line_acted(action, reply).0
            &&& e.stepped(key, reply).1 == e.scene.line_acted(action, reply).1
            &&& e.stepped(key, reply).0.clipboard == e.clipboard
            &&& e.request(key) == e.scene.line_request(action)
        }),
{
}

/// In insert mode a character is typed, the arrows move, Backspace deletes,
/// Enter runs the line, and Esc goes to normal mode.
pub proof fn law_insert_keys_in_line(key: KeyEvent)
    ensures
        ({
            let action = line_cmds::action_of_key(key, Mode::Insert);
            match key.code {
                KeyCode::Char(c) => action == Action::Insert(c),
                KeyCode::Left => action is MoveLeft,
                KeyCode::Right => action is MoveRight,
                KeyCode::Backspace => action is BackSpace,
                KeyCode::Enter => action is Exec,
                KeyCode::Esc => action is EnterNormal,
                KeyCode::Other => action is Noop,
            }
        }),
{
}

/// In normal mode h and l move, p pastes, i and v turn to another mode, Enter
/// runs the line and Esc leaves it; and these are the only keys for that.
pub proof fn law_normal_keys_in_line(key: KeyEvent)
    ensures
        ({
            let action = line_cmds::action_of_key(key, Mode::Normal);
            &&& action is MoveLeft <==> pressed(key, 'h')
            &&& action is MoveRight <==> pressed(key, 'l')
            &&& action is PasteClipboard <==> pressed(key, 'p')
            &&& action is EnterInsert <==> pressed(key, 'i')
            &&& action is EnterVisual <==> pressed(key, 'v')
            &&& action is Exec <==> key.code is Enter
            &&& action is EnterView <==> key.code is Esc
            &&& !(action is Insert || action is BackSpace || action is YankClipboard || action
                is EnterNormal || action is MoveSelectionLeft || action is MoveSelectionRight)
        }),
{
}

/// In visual mode h and l move an end of the selection, y yanks, d deletes, and
/// Esc goes to normal mode; and these are the only keys for that.
pub proof fn law_visual_keys_in_line(key: KeyEvent)
    ensures
        ({
            let action = line_cmds::action_of_key(key, Mode::Visual);
            &&& action is MoveSelectionLeft <==> pressed(key, 'h')
            &&& action is MoveSelectionRight <==> pressed(key, 'l')
            &&& action is YankClipboard <==> pressed(key, 'y')
            &&& action is BackSpace <==> pressed(key, 'd')
            &&& action is EnterNormal <==> key.code is Esc
            &&& !(action is Insert || action is Exec || action is PasteClipboard || action
                is EnterView || action is EnterInsert || action is EnterVisual || action
                is MoveLeft || action is MoveRight)
        }),
{
}

// ---- what the keys do

/// Moving, selecting and deleting change the line alone, and ask for nothing.
pub proof fn law_line_moves(s: Scene, reply: Reply)
    ensures
        only_line(s, s.line_acted(Action::MoveLeft, reply), s.line.moved_left()),
        only_line(s, s.line_acted(Action::MoveRight, reply), s.line.moved_right()),
        only_line(
            s,
            s.line_acted(Action::MoveSelectionLeft, reply),
            s.line.selection_moved_left(),
        ),
        only_line(
            s,
            s.line_acted(Action::MoveSelectionRight, reply),
            s.line.selection_moved_right(),
        ),
        only_line(s, s.line_acted(Action::BackSpace, reply), s.line.deleted()),
        s.line_request(Action::MoveLeft) is Nothing,
        s.line_request(Action::MoveRight) is Nothing,
        s.line_request(Action::MoveSelectionLeft) is Nothing,
        s.line_request(Action::MoveSelectionRight) is Nothing,
        s.line_request(Action::BackSpace) is Nothing,
{
}

/// Another mode changes nothing but the mode and the selection, which only
/// visual mode has.
pub proof fn law_line_modes(s: Scene, reply: Reply)
    ensures
        only_line(
            s,
            s.line_acted(Action::EnterNormal, reply),
            CmdLineView { mode: Mode::Normal, selection: None, ..s.line },
        ),
        only_line(
            s,
            s.line_acted(Action::EnterInsert, reply),
            CmdLineView { mode: Mode::Insert, selection: None, ..s.line },
        ),
        only_line(s, s.line_acted(Action::EnterVisual, reply), s.line.in_visual()),
        s.line_acted(Action::Noop, reply) == (s, None::<EditorErrView>),
        s.line_request(Action::EnterNormal) is Nothing,
        s.line_request(Action::EnterInsert) is Nothing,
        s.line_request(Action::EnterVisual) is Nothing,
        s.line_request(Action::EnterView) is Nothing,
        s.line_request(Action::Noop) is Nothing,
{
}

/// Leaving the line goes back to the view, and the line is ready to be typed in
/// again.
pub proof fn law_line_left(s: Scene, reply: Reply)
    ensures
        ({
            let (t, stop) = s.line_acted(Action::EnterView, reply);
            &&& stop is None
            &&& t == Scene {
                focus: s.line.last_view.0,
                line: CmdLineView { mode: Mode::Insert, cursor: 0, selection: None, ..s.line },
                ..s
            }
        }),
{
}

/// A character is typed into the line; where the line can then be completed,
/// the list of what to opens and takes the focus.
pub proof fn law_line_typed(s: Scene, c: char, reply: Reply)
    ensures
        ({
            let (t, stop) = s.line_acted(Action::Insert(c), reply);
            let l = s.line.inserted(c);
            let n = s.buffers.data.len() as int;
            &&& stop is None
            &&& t.line == l
            &&& t.views == s.views
            &&& t.buffers == s.buffers
            &&& t.cwd == s.cwd
            &&& s.line_request(Action::Insert(c)) == RequestView::List(
                auto_complete::listing_of(l.input),
            )
            &&& match auto_complete::completions(l.input, n, told(reply)) {
                Some(f) => {
                    &&& t.focus == s.nodes.new_leaf_idx()
                    &&& t.nodes == s.nodes.grown(
                        ComponentView::AutoComplete(
                            AutoCompleteView {
                                selected: None,
                                filtered: f,
                                progress: auto_complete::progress_of(l.input),
                            },
                        ),
                        s.nodes.roots[2],
                        view_cmds::list_constraints(),
                        view_cmds::list_anchors(),
                    )
                },
                None => t.focus == s.focus && t.nodes == s.nodes,
            }
        }),
{
    assert(told(reply) =~= auto_complete::listed_texts(requests::names_of(reply)));
}

/// Running a line is carrying out what it says; where it says nothing, the
/// message tells why.
pub proof fn law_ran(s: Scene, reply: Reply)
    ensures
        s.line_acted(Action::Exec, reply) == s.ran(reply),
        match commands::read_line(s.line.input) {
            Ok(cmd) => s.ran(reply) == s.executed(cmd, reply),
            Err(m) => s.ran(reply) == (s, Some(EditorErrView::Msg(m))),
        },
{
}

/// What is asked for when a line is run is what its command asks for.
pub proof fn law_run_asks(s: Scene)
    ensures
        match commands::read_line(s.line.input) {
            Ok(cmd) => s.line_request(Action::Exec) == s.request_of(cmd),
            Err(_) => s.line_request(Action::Exec) is Nothing,
        },
{
}

/// The system's clipboard is asked for and typed in, on one line.
pub proof fn law_line_pasted(s: Scene, reply: Reply)
    ensures
        s.line_request(Action::PasteClipboard) is ReadClipboard,
        match reply {
            Reply::Clipboard(Some(r)) => only_line(
                s,
                s.line_acted(Action::PasteClipboard, reply),
                s.line.inserted_all(cmd_line::unbroken(r@)),
            ),
            _ => s.line_acted(Action::PasteClipboard, reply) == (s, None::<EditorErrView>),
        },
{
}

/// What is selected goes to the system's clipboard, and the line to normal
/// mode; where that fails nothing changes.
pub proof fn law_line_yanked(s: Scene, reply: Reply)
    ensures
        ({
            let (t, stop) = s.line_acted(Action::YankClipboard, reply);
            let asked = s.line_request(Action::YankClipboard);
            let l = s.line;
            match l.selection {
                None => t == s && stop is None && asked is Nothing,
                Some(sel) => {
                    let r = l.between(sel);
                    &&& asked is WriteClipboard
                    &&& r == asked->WriteClipboard_0 || r == asked->WriteClipboard_0.push('\n')
                    &&& r.len() > 0 && r.last() == '\n' ==> r != asked->WriteClipboard_0
                    &&& match reply {
                        Reply::Done(Err(m)) => t == s && stop == Some(EditorErrView::Io(m@)),
                        _ => stop is None && t == Scene {
                            line: CmdLineView { mode: Mode::Normal, selection: None, ..l },
                            ..s
                        },
                    }
                },
            }
        }),
{
    if s.line.selection is Some {
        let r = s.line.between(s.line.selection->0);
        if r.len() > 0 {
            assert(r =~= r.drop_last().push(r.last()));
        }
    }
}

// ---- the keys of the completion list

/// A key goes to what has the focus: to the completion list.
pub proof fn law_keys_in_list(e: EditorView, ac: AutoCompleteView, key: KeyEvent, reply: Reply)
    requires
        e.scene.nodes.leaves[e.scene.focus.0 as int].comp == ComponentView::AutoComplete(ac),
    ensures
        ({
            let action = list_cmds::list_action_of_key(key);
            &&& e.stepped(key, reply).0.scene == e.scene.list_acted(action, ac, reply).0
            &&& e.stepped(key, reply).1 == e.scene.list_acted(action, ac, reply).1
            &&& e.stepped(key, reply).0.clipboard == e.clipboard
            &&& e.request(key) == e.scene.list_request(action)
        }),
{
}

/// With alt, j and k go to the next entry and the one before, l and h a column
/// on and back; every other character is typed. Backspace deletes, Enter runs
/// the line, and Esc closes the list.
pub proof fn law_list_keys(key: KeyEvent)
    ensures
        ({
            let action = list_cmds::list_action_of_key(key);
            &&& action is Next <==> pressed(key, 'j') && key.alt
            &&& action is Prev <==> pressed(key, 'k') && key.alt
            &&& action is NextCol <==> pressed(key, 'l') && key.alt
            &&& action is PrevCol <==> pressed(key, 'h') && key.alt
            &&& match key.code {
                KeyCode::Char(c) => {
                    !key.alt || (c != 'h' && c != 'j' && c != 'k' && c != 'l') ==> action
                        == ListAction::Insert(c)
                },
                KeyCode::Backspace => action is BackSpace,
                KeyCode::Enter => action is Exec,
                KeyCode::Esc => action is Quit,
                _ => action is Noop,
            }
        }),
{
}

// ---- what these do

/// The list and the line have changed, and nothing else.
pub open spec fn only_list(s: Scene, t: Scene, l: CmdLineView, ac: AutoCompleteView) -> bool {
    let m = s.nodes;
    let f = s.focus.0 as int;
    let leaf = LeafView { comp: ComponentView::AutoComplete(ac), ..m.leaves[f] };
    t == Scene { line: l, nodes: NodesView { leaves: m.leaves.update(f, leaf), ..m }, ..s }
}

/// Another entry is chosen, and the line is completed to it.
pub proof fn law_list_moves(s: Scene, ac: AutoCompleteView, reply: Reply)
    ensures
        ({
            let h = s.nodes.leaves[s.focus.0 as int].rect.h as int;
            let (a, b) = (ac.at_next(), ac.at_prev());
            let (c, d) = (ac.at_next_col(h), ac.at_prev_col(h));
            &&& only_list(s, s.list_acted(ListAction::Next, ac, reply).0, a.completed(s.line), a)
            &&& only_list(s, s.list_acted(ListAction::Prev, ac, reply).0, b.completed(s.line), b)
            &&& only_list(s, s.list_acted(ListAction::NextCol, ac, reply).0, c.completed(s.line), c)
            &&& only_list(s, s.list_acted(ListAction::PrevCol, ac, reply).0, d.completed(s.line), d)
            &&& s.list_acted(ListAction::Next, ac, reply).1 is None
            &&& s.list_acted(ListAction::Prev, ac, reply).1 is None
            &&& s.list_acted(ListAction::NextCol, ac, reply).1 is None
            &&& s.list_acted(ListAction::PrevCol, ac, reply).1 is None
        }),
{
}

/// A character is typed into the line, and the list shows what the line can
/// then be completed to. Where it cannot be, the list closes.
pub proof fn law_list_typed(s: Scene, ac: AutoCompleteView, c: char, reply: Reply)
    ensures
        ({
            let (t, stop) = s.list_acted(ListAction::Insert(c), ac, reply);
            let l = s.line.inserted(c);
            let n = s.buffers.data.len() as int;
            &&& stop is None
            &&& t.line == l
            &&& s.list_request(ListAction::Insert(c)) == RequestView::List(
                auto_complete::listing_of(l.input),
            )
            &&& match auto_complete::completions(l.input, n, told(reply)) {
                Some(f) => only_list(
                    s,
                    t,
                    l,
                    AutoCompleteView {
                        filtered: f,
                        selected: ac.selected,
                        progress: auto_complete::progress_of(l.input),
                    },
                ),
                None => t.focus.0 == CMDLINE,
            }
        }),
{
    assert(told(reply) =~= auto_complete::listed_texts(requests::names_of(reply)));
}

/// Backspace takes a character out of the line, and nothing is chosen any
/// longer. The list closes where nothing is left in it.
pub proof fn law_list_erased(s: Scene, ac: AutoCompleteView, reply: Reply)
    ensures
        ({
            let (t, stop) = s.list_acted(ListAction::BackSpace, ac, reply);
            let l = s.line.erased();
            let n = s.buffers.data.len() as int;
            let found = auto_complete::completions(l.input, n, told(reply));
            &&& stop is None
            &&& t.line == l
            &&& s.list_request(ListAction::BackSpace) == RequestView::List(
                auto_complete::listing_of(l.input),
            )
            &&& match found {
                Some(f) => if f.len() > 0 {
                    only_list(
                        s,
                        t,
                        l,
                        AutoCompleteView {
                            filtered: f,
                            selected: None,
                            progress: auto_complete::progress_of(l.input),
                        },
                    )
                } else {
                    t.focus.0 == CMDLINE
                },
                None => if ac.filtered.len() > 0 {
                    only_list(s, t, l, AutoCompleteView { selected: None, ..ac })
                } else {
                    t.focus.0 == CMDLINE
                },
            }
        }),
{
    assert(told(reply) =~= auto_complete::listed_texts(requests::names_of(reply)));
}

/// The list closes: the focus is in the command line, and the line stays.
pub proof fn law_list_left(s: Scene, ac: AutoCompleteView, reply: Reply)
    ensures
        ({
            let (t, stop) = s.list_acted(ListAction::Quit, ac, reply);
            &&& stop is None
            &&& t.focus.0 == CMDLINE
            &&& t.line == s.line
            &&& t.buffers == s.buffers
            &&& t.cwd == s.cwd
            &&& s.list_request(ListAction::Quit) is Nothing
            &&& s.list_acted(ListAction::Noop, ac, reply) == (s, None::<EditorErrView>)
            &&& s.list_request(ListAction::Noop) is Nothing
        }),
{
}

/// Running the line from the list closes the list first and leaves the line in
/// normal mode.
pub proof fn law_list_run(s: Scene, ac: AutoCompleteView, reply: Reply)
    ensures
        ({
            let (t, stop) = s.list_acted(ListAction::Exec, ac, reply);
            let closed = s.list_acted(ListAction::Quit, ac, reply).0;
            let (u, cause) = closed.ran(reply);
            &&& stop == cause
            &&& t == Scene { line: CmdLineView { mode: Mode::Normal, ..u.line }, ..u }
        }),
{
}

// ---- the chosen entry

/// The next entry is one further down, and the last one stays chosen; from
/// nowhere the first one is.
pub proof fn law_next(ac: AutoCompleteView)
    requires
        ac.filtered.len() > 0,
        ac.filtered.len() <= usize::MAX,
        ac.selected matches Some(i) ==> i < ac.filtered.len(),
    ensures
        ({
            let n = ac.at_next();
            &&& n.filtered == ac.filtered
            &&& n.progress == ac.progress
            &&& n.selected is Some
            &&& ac.selected is None ==> n.selected->0 == 0
            &&& ac.selected matches Some(i) ==> n.selected->0 == (if i + 1 < ac.filtered.len() {
                i + 1
            } else {
                i as int
            })
        }),
{
}

/// The entry before is one further up, and the first one stays chosen; from
/// nowhere the last one is.
pub proof fn law_prev(ac: AutoCompleteView)
    requires
        ac.filtered.len() > 0,
        ac.filtered.len() <= usize::MAX,
        ac.selected matches Some(i) ==> i < ac.filtered.len(),
    ensures
        ({
            let n = ac.at_prev();
            &&& n.filtered == ac.filtered
            &&& n.progress == ac.progress
            &&& n.selected is Some
            &&& ac.selected is None ==> n.selected->0 == ac.filtered.len() - 1
            &&& ac.selected matches Some(i) ==> n.selected->0 == (if i > 0 {
                i - 1
            } else {
                0
            })
        }),
{
}

/// Up takes down back wherever there is an entry further down.
pub proof fn law_next_and_prev(ac: AutoCompleteView, i: usize)
    requires
        ac.filtered.len() <= usize::MAX,
        ac.selected == Some(i),
        i + 1 < ac.filtered.len(),
    ensures
        ac.at_next().at_prev() == ac,
{
    law_next(ac);
    law_prev(ac.at_next());
}

/// A column holds as many entries as there are rows below the rule; a column
/// on is that many entries further down, at most the last one.
pub proof fn law_next_column(ac: AutoCompleteView, h: int, i: usize)
    requires
        0 < ac.filtered.len() <= usize::MAX,
        ac.selected == Some(i),
        i < ac.filtered.len(),
        h >= 1,
        ac.can_step_col(h),
    ensures
        ({
            let n = ac.at_next_col(h);
            &&& n.filtered == ac.filtered
            &&& n.selected is Some
            &&& i + (h - 1) < ac.filtered.len() ==> n.selected->0 == i + (h - 1)
            &&& i + (h - 1) >= ac.filtered.len() ==> n.selected->0 == ac.filtered.len() - 1
        }),
{
}

/// A column back is as many entries further up, at least the first one.
pub proof fn law_prev_column(ac: AutoCompleteView, h: int, i: usize)
    requires
        0 < ac.filtered.len() <= usize::MAX,
        ac.selected == Some(i),
        i < ac.filtered.len(),
        h >= 1,
    ensures
        ({
            let n = ac.at_prev_col(h);
            &&& n.filtered == ac.filtered
            &&& n.selected is Some
            &&& i >= h - 1 ==> n.selected->0 == i - (h - 1)
            &&& i < h - 1 ==> n.selected->0 == 0
        }),
{
}

/// A column on and back again is where one was, unless the last entry was in
/// the way.
pub proof fn law_columns(ac: AutoCompleteView, h: int, i: usize)
    requires
        0 < ac.filtered.len() <= usize::MAX,
        ac.selected == Some(i),
        h >= 1,
        i + (h - 1) < ac.filtered.len(),
        ac.can_step_col(h),
    ensures
        ac.at_next_col(h).at_prev_col(h) == ac,
{
    law_next_column(ac, h, i);
    law_prev_column(ac.at_next_col(h), h, (i + h - 1) as usize);
}

} // verus!
