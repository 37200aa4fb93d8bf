//! The keys of a view, and what they do.
use vstd::prelude::*;
use vstd::string::*;
use crate::auto_complete;
use crate::auto_complete::{AutoComplete, AutoCompleteView};
use crate::buffers::{Buffer, BufferIdx, Buffers};
use crate::cmd_line;
use crate::cmd_line::{CmdLine, CmdLineView};
use crate::edits;
use crate::edits::Pane;
use crate::editor::{Editor, EditorView, CMDLINE};
use crate::errors;
use crate::errors::{EditorErr, EditorErrView};
use crate::layout::{Anchors, AnchorsView, Constraints, ConstraintsView, Dimension, Position, Rect};
use crate::nodes::{Component, Nodes};
use crate::requests::{Reply, RequestView};
use crate::scene::Scene;
use crate::strings;
use crate::terminal::{KeyCode, KeyEvent};
use crate::tree::{ComponentView, LeafIdx, NodeIdx, Side, SplitIdx, ROOT_OVERLAY};
use crate::tree_pruning;
use crate::views::{Mode, TextView, ViewIdx, Views};

verus! {

/// What a key does in a view.
#[derive(Clone, Copy, PartialEq, Eq, Structural)]
pub enum ViewCmd {
    EnterVisual,
    EnterNormal,
    EnterInsert,
    Insert(char),
    NewLine,
    BackSpace,
    Undo,
    Redo,
    MoveUp,
    MoveDown,
    MoveRight,
    MoveLeft,
    MoveSelectionUp,
    MoveSelectionDown,
    MoveSelectionRight,
    MoveSelectionLeft,
    FocusUp,
    FocusDown,
    FocusRight,
    FocusLeft,
    EnterCmd,
    Yank,
    YankClipboard,
    Paste,
    PasteClipboard,
    Noop,
}

pub open spec fn normal_cmd(key: KeyEvent) -> ViewCmd {
    match key.code {
        KeyCode::Char('y') => ViewCmd::Yank,
        KeyCode::Char('i') => ViewCmd::EnterInsert,
        KeyCode::Char('k') if key.alt => ViewCmd::EnterCmd,
        KeyCode::Char('K') => ViewCmd::FocusUp,
        KeyCode::Char('u') => ViewCmd::Undo,
        KeyCode::Char('U') => ViewCmd::Redo,
        KeyCode::Char('h') => ViewCmd::MoveLeft,
        KeyCode::Char('j') => ViewCmd::MoveDown,
        KeyCode::Char('k') => ViewCmd::MoveUp,
        KeyCode::Char('l') => ViewCmd::MoveRight,
        KeyCode::Char('H') => ViewCmd::FocusLeft,
        KeyCode::Char('J') => ViewCmd::FocusDown,
        KeyCode::Char('L') => ViewCmd::FocusRight,
        KeyCode::Char('p') => ViewCmd::Paste,
        KeyCode::Char('P') => ViewCmd::PasteClipboard,
        KeyCode::Char('v') => ViewCmd::EnterVisual,
        KeyCode::Char('d') => ViewCmd::BackSpace,
        _ => ViewCmd::Noop,
    }
}

pub open spec fn insert_cmd(key: KeyEvent) -> ViewCmd {
    match key.code {
        KeyCode::Esc => ViewCmd::EnterNormal,
        KeyCode::Backspace => ViewCmd::BackSpace,
        KeyCode::Enter => ViewCmd::NewLine,
        KeyCode::Char(c) => ViewCmd::Insert(c),
        _ => ViewCmd::Noop,
    }
}

pub open spec fn visual_cmd(key: KeyEvent) -> ViewCmd {
    match key.code {
        KeyCode::Esc => ViewCmd::EnterNormal,
        KeyCode::Char('k') if key.alt => ViewCmd::EnterCmd,
        KeyCode::Char('K') => ViewCmd::FocusUp,
        KeyCode::Char('i') => ViewCmd::EnterInsert,
        KeyCode::Char('k') => ViewCmd::MoveSelectionUp,
        KeyCode::Char('j') => ViewCmd::MoveSelectionDown,
        KeyCode::Char('h') => ViewCmd::MoveSelectionLeft,
        KeyCode::Char('l') => ViewCmd::MoveSelectionRight,
        KeyCode::Char('y') => ViewCmd::Yank,
        KeyCode::Char('Y') => ViewCmd::YankClipboard,
        KeyCode::Char('p') => ViewCmd::Paste,
        KeyCode::Char('P') => ViewCmd::PasteClipboard,
        KeyCode::Char('d') => ViewCmd::BackSpace,
        _ => ViewCmd::Noop,
    }
}

/// The command of a key, by the mode of the view.
pub open spec fn cmd_of_key(key: KeyEvent, mode: Mode) -> ViewCmd {
    match mode {
        Mode::Normal => normal_cmd(key),
        Mode::Insert => insert_cmd(key),
        Mode::Visual => visual_cmd(key),
    }
}

pub fn key_to_cmd(key: KeyEvent, mode: Mode) -> (cmd: ViewCmd)
    ensures
        cmd == cmd_of_key(key, mode),
{
    match mode {
        Mode::Normal => match key.code {
            KeyCode::Char('y') => ViewCmd::Yank,
            KeyCode::Char('i') => ViewCmd::EnterInsert,
            KeyCode::Char('k') if key.alt => ViewCmd::EnterCmd,
            KeyCode::Char('K') => ViewCmd::FocusUp,
            KeyCode::Char('u') => ViewCmd::Undo,
            KeyCode::Char('U') => ViewCmd::Redo,
            KeyCode::Char('h') => ViewCmd::MoveLeft,
            KeyCode::Char('j') => ViewCmd::MoveDown,
            KeyCode::Char('k') => ViewCmd::MoveUp,
            KeyCode::Char('l') => ViewCmd::MoveRight,
            KeyCode::Char('H') => ViewCmd::FocusLeft,
            KeyCode::Char('J') => ViewCmd::FocusDown,
            KeyCode::Char('L') => ViewCmd::FocusRight,
            KeyCode::Char('p') => ViewCmd::Paste,
            KeyCode::Char('P') => ViewCmd::PasteClipboard,
            KeyCode::Char('v') => ViewCmd::EnterVisual,
            KeyCode::Char('d') => ViewCmd::BackSpace,
            _ => ViewCmd::Noop,
        },
        Mode::Insert => match key.code {
            KeyCode::Esc => ViewCmd::EnterNormal,
            KeyCode::Backspace => ViewCmd::BackSpace,
            KeyCode::Enter => ViewCmd::NewLine,
            KeyCode::Char(c) => ViewCmd::Insert(c),
            _ => ViewCmd::Noop,
        },
        Mode::Visual => match key.code {
            KeyCode::Esc => ViewCmd::EnterNormal,
            KeyCode::Char('k') if key.alt => ViewCmd::EnterCmd,
            KeyCode::Char('K') => ViewCmd::FocusUp,
            KeyCode::Char('i') => ViewCmd::EnterInsert,
            KeyCode::Char('k') => ViewCmd::MoveSelectionUp,
            KeyCode::Char('j') => ViewCmd::MoveSelectionDown,
            KeyCode::Char('h') => ViewCmd::MoveSelectionLeft,
            KeyCode::Char('l') => ViewCmd::MoveSelectionRight,
            KeyCode::Char('y') => ViewCmd::Yank,
            KeyCode::Char('Y') => ViewCmd::YankClipboard,
            KeyCode::Char('p') => ViewCmd::Paste,
            KeyCode::Char('P') => ViewCmd::PasteClipboard,
            KeyCode::Char('d') => ViewCmd::BackSpace,
            _ => ViewCmd::Noop,
        },
    }
}

// ---- entering the command line

/// What the completion list may take of the screen.
pub open spec fn list_constraints() -> ConstraintsView {
    ConstraintsView {
        min_height: Some(seq![Dimension::AddAbsolute(7)]),
        max_height: Some(seq![Dimension::AddAbsolute(7)]),
        min_width: None,
        max_width: None,
    }
}

/// Where the completion list stands.
pub open spec fn list_anchors() -> AnchorsView {
    AnchorsView { x: None, y: Some(seq![Position::AddRelative(1), Position::SubAbsolute(8)]) }
}

fn make_list_constraints() -> (c: Constraints)
    ensures
        c@ == list_constraints(),
{
    let c: Constraints = Constraints {
        min_height: Some(vec![Dimension::AddAbsolute(7)]),
        max_height: Some(vec![Dimension::AddAbsolute(7)]),
        min_width: None,
        max_width: None,
    };
    assert(c@.min_height->0 =~= list_constraints().min_height->0);
    assert(c@.max_height->0 =~= list_constraints().max_height->0);
    c
}

fn make_list_anchors() -> (a: Anchors)
    ensures
        a@ == list_anchors(),
{
    let a: Anchors = Anchors {
        x: None,
        y: Some(vec![Position::AddRelative(1), Position::SubAbsolute(8)]),
    };
    assert(a@.y->0 =~= list_anchors().y->0);
    a
}

impl Scene {
    /// The completion list for the line, where there is anything to complete.
    pub open spec fn completion_list(self, listed: Option<Seq<Seq<char>>>) -> AutoCompleteView {
        AutoCompleteView::empty().refreshed(
            self.line.input,
            self.buffers.data.len() as int,
            listed,
        )
    }

    pub open spec fn has_completions(self, listed: Option<Seq<Seq<char>>>) -> bool {
        auto_complete::completions(
            self.line.input,
            self.buffers.data.len() as int,
            listed,
        ) is Some
    }

    /// With the completion list open and in focus.
    pub open spec fn with_list(self, listed: Option<Seq<Seq<char>>>) -> Scene {
        if self.has_completions(listed) {
            Scene {
                nodes: self.nodes.grown(
                    ComponentView::AutoComplete(self.completion_list(listed)),
                    self.overlay_root(),
                    list_constraints(),
                    list_anchors(),
                ),
                focus: self.nodes.new_leaf_idx(),
                ..self
            }
        } else {
            self
        }
    }

    pub open spec fn can_list(self, listed: Option<Seq<Seq<char>>>) -> bool {
        self.has_completions(listed) ==> {
            &&& self.nodes.linked(-1)
            &&& self.nodes.roots.len() > ROOT_OVERLAY
            &&& self.nodes.grown_fits(
                ComponentView::AutoComplete(self.completion_list(listed)),
                self.overlay_root(),
                list_constraints(),
                list_anchors(),
            )
        }
    }

    /// The command line entered from a view, empty.
    pub open spec fn in_cmd_line(self, v: ViewIdx, l: LeafIdx) -> Scene {
        Scene {
            line: CmdLineView {
                last_view: (l, v),
                input: Seq::empty(),
                cursor: 0,
                mode: cmd_line::Mode::Insert,
                ..self.line
            },
            focus: LeafIdx(CMDLINE),
            ..self
        }
    }
}

/// Opens the completion list for the line and moves the focus there, where
/// there is anything to complete.
pub(crate) fn open_list(
    cmd_line: &CmdLine,
    focus: &mut LeafIdx,
    buffers: &Buffers,
    nodes: &mut Nodes,
    listed: &Option<Vec<String>>,
    Ghost(s): Ghost<Scene>,
)
    requires
        s.line == cmd_line@,
        s.focus == *old(focus),
        s.buffers == buffers@,
        s.nodes == old(nodes)@,
        s.can_list(auto_complete::listed_texts(*listed)),
    ensures
        *final(focus) == s.with_list(auto_complete::listed_texts(*listed)).focus,
        final(nodes)@ == s.with_list(auto_complete::listed_texts(*listed)).nodes,
        old(nodes)@.wf() ==> final(nodes)@.wf(),
{
    match AutoComplete::new(cmd_line, buffers, listed) {
        Some(ac) => {
            assert(s.nodes.live(NodeIdx::Split(s.nodes.roots[2])));
            let root: SplitIdx = nodes.get_root(ROOT_OVERLAY);
            *focus = nodes.new_leaf(
                Component::AutoComplete(ac),
                root,
                make_list_constraints(),
                make_list_anchors(),
            );
        },
        None => {},
    }
}

impl CmdLine {
    /// Enters the command line from a view, with all commands to choose from.
    pub fn enter_cmd_mode(
        &mut self,
        vidx: ViewIdx,
        focus: &mut LeafIdx,
        views: &Views,
        lidx: LeafIdx,
        buffers: &Buffers,
        nodes: &mut Nodes,
        cwd: &String,
    )
        requires
            Scene::new(
                *old(self),
                *old(nodes),
                *old(focus),
                *views,
                *buffers,
                *cwd,
            ).in_cmd_line(vidx, lidx).can_list(None),
        ensures
            Scene::new(*final(self), *final(nodes), *final(focus), *views, *buffers, *cwd)
                == Scene::new(
                *old(self),
                *old(nodes),
                *old(focus),
                *views,
                *buffers,
                *cwd,
            ).in_cmd_line(vidx, lidx).with_list(None),
            old(nodes)@.wf() ==> final(nodes)@.wf(),
    {
        let ghost s = Scene::new(*self, *nodes, *focus, *views, *buffers, *cwd).in_cmd_line(
            vidx,
            lidx,
        );
        self.last_view = (lidx, vidx);
        self.input = String::new();
        self.cursor = 0;
        self.mode = cmd_line::Mode::Insert;
        *focus = LeafIdx(CMDLINE);
        assert(Scene::new(*self, *nodes, *focus, *views, *buffers, *cwd) =~= s);
        open_list(self, focus, buffers, nodes, &None, Ghost(s));
        assert(Scene::new(*self, *nodes, *focus, *views, *buffers, *cwd) =~= s.with_list(None));
    }
}

// ---- the commands of a view

/// A text without one line feed at its end.
pub open spec fn chomped(s: Seq<char>) -> Seq<char> {
    if s.len() > 0 && s.last() == '\n' {
        s.drop_last()
    } else {
        s
    }
}

/// What goes to the clipboard of the system.
pub fn clipboard_text(s: &str) -> (res: String)
    ensures
        res@ == chomped(s@),
{
    let chars: Vec<char> = strings::chars_of(s);
    let n: usize = chars.len();
    if n > 0 && chars[n - 1] == '\n' {
        let res: String = strings::string_of(&chars, 0, n - 1);
        assert(res@ =~= s@.drop_last());
        res
    } else {
        s.to_string()
    }
}

impl EditorView {
    pub open spec fn with_view_at(self, v: ViewIdx, view: TextView) -> EditorView {
        self.with_scene(self.scene.with_view_at(v, view))
    }

    pub open spec fn with_pane(self, v: ViewIdx, p: Pane) -> EditorView {
        self.with_scene(self.scene.with_pane(v, p))
    }

    /// The view in normal mode, the cursor of the command line at its start.
    pub open spec fn in_normal(self, v: ViewIdx) -> EditorView {
        let s = self.scene;
        self.with_scene(
            Scene {
                line: CmdLineView { cursor: 0, ..s.line },
                ..s.with_view_at(
                    v,
                    TextView { mode: Mode::Normal, selection: None, ..s.view_at(v) },
                )
            },
        )
    }

    pub open spec fn yanked(self, v: ViewIdx) -> EditorView {
        match self.scene.view_at(v).selection {
            Some(sel) => EditorView {
                clipboard: Some(edits::selected(sel, self.scene.buffer_of(v).text)),
                ..self.in_normal(v)
            },
            None => self,
        }
    }

    pub open spec fn refocused(self, side: Side) -> EditorView {
        let s = self.scene;
        self.with_scene(
            Scene {
                nodes: s.nodes.refocused(s.focus, side),
                focus: s.nodes.refocused_leaf(s.focus, side),
                ..s
            },
        )
    }

    pub open spec fn can_refocus(self, side: Side) -> bool {
        let s = self.scene;
        &&& s.nodes.wf()
        &&& s.focus.0 < s.nodes.leaves.len()
        &&& s.nodes.live(NodeIdx::Split(s.nodes.leaf(s.focus).parent))
        &&& s.nodes.refocus_fits(s.focus, side)
    }

    /// What a command of a view makes of the editor.
    pub open spec fn view_acted(self, cmd: ViewCmd, v: ViewIdx, reply: Reply) -> EditorView {
        let s = self.scene;
        let view = s.view_at(v);
        let t = s.buffer_of(v).text;
        let rect = s.tree_rect();
        match cmd {
            ViewCmd::EnterVisual => self.with_view_at(
                v,
                TextView {
                    mode: Mode::Visual,
                    selection: Some((view.cursor, (view.cursor + 1) as usize)),
                    ..view
                },
            ),
            ViewCmd::EnterNormal => self.in_normal(v),
            ViewCmd::EnterInsert => self.with_view_at(
                v,
                TextView { mode: Mode::Insert, selection: None, ..view },
            ),
            ViewCmd::Insert(c) => self.with_pane(v, s.pane(v).typed(c)),
            ViewCmd::NewLine => self.with_pane(v, s.pane(v).line_broken(rect)),
            ViewCmd::BackSpace => self.with_pane(v, s.pane(v).deleted(rect)),
            ViewCmd::Undo => self.with_pane(v, s.pane(v).undone()),
            ViewCmd::Redo => self.with_pane(v, s.pane(v).redone(rect)),
            ViewCmd::MoveUp => self.with_view_at(v, view.moved_up(t, rect)),
            ViewCmd::MoveDown => self.with_view_at(v, view.moved_down(t, rect)),
            ViewCmd::MoveRight => self.with_view_at(v, view.moved_right(t)),
            ViewCmd::MoveLeft => self.with_view_at(v, view.moved_left(t)),
            ViewCmd::MoveSelectionUp => self.with_view_at(v, view.selection_moved_up(t, rect)),
            ViewCmd::MoveSelectionDown => self.with_view_at(v, view.selection_moved_down(t, rect)),
            ViewCmd::MoveSelectionRight => self.with_view_at(v, view.selection_moved_right(t)),
            ViewCmd::MoveSelectionLeft => self.with_view_at(v, view.selection_moved_left(t)),
            ViewCmd::FocusUp => self.refocused(Side::Up),
            ViewCmd::FocusDown => self.refocused(Side::Down),
            ViewCmd::FocusRight => self.refocused(Side::Right),
            ViewCmd::FocusLeft => self.refocused(Side::Left),
            ViewCmd::EnterCmd => self.with_scene(
                s.in_cmd_line(v, s.tree_focus()).with_list(None),
            ),
            ViewCmd::Yank => self.yanked(v),
            ViewCmd::YankClipboard => if view.selection is Some {
                self.in_normal(v)
            } else {
                self
            },
            ViewCmd::Paste => match self.clipboard {
                Some(text) => self.with_pane(v, s.pane(v).pasted(text)),
                None => self,
            },
            ViewCmd::PasteClipboard => match reply {
                Reply::Clipboard(Some(text)) => self.with_pane(
                    v,
                    s.pane(v).clipboard_pasted(text@),
                ),
                _ => self,
            },
            ViewCmd::Noop => self,
        }
    }

    /// What stops a command of a view.
    pub open spec fn view_stop(self, cmd: ViewCmd, v: ViewIdx) -> Option<EditorErrView> {
        match cmd {
            ViewCmd::Undo => self.scene.pane(v).undo_stop(),
            ViewCmd::Redo => self.scene.pane(v).redo_stop(),
            _ => None,
        }
    }

    /// What a command of a view needs of the view and its buffer.
    pub open spec fn pane_allows(self, cmd: ViewCmd, v: ViewIdx, reply: Reply) -> bool {
        let s = self.scene;
        let view = s.view_at(v);
        let t = s.buffer_of(v).text;
        let rect = s.tree_rect();
        let p = s.pane(v);
        match cmd {
            ViewCmd::EnterVisual => view.cursor < usize::MAX,
            ViewCmd::Insert(_) => p.can_type(),
            ViewCmd::NewLine => p.can_break(rect),
            ViewCmd::BackSpace => p.can_delete(rect),
            ViewCmd::Undo => p.can_undo(),
            ViewCmd::Redo => p.can_redo(rect),
            ViewCmd::MoveUp => view.can_move_up(t, rect),
            ViewCmd::MoveDown => view.can_move_down(t, rect),
            ViewCmd::MoveRight => view.cursor <= t.len(),
            ViewCmd::MoveLeft => view.cursor <= t.len(),
            ViewCmd::MoveSelectionUp => {
                &&& view.can_move_up(t, rect)
                &&& view.line(t) > 0 ==> view.selection is Some
                &&& t.len() < usize::MAX
            },
            ViewCmd::MoveSelectionDown => {
                &&& view.can_move_down(t, rect)
                &&& !view.is_last_line(t) ==> view.selection is Some
                &&& t.len() < usize::MAX
            },
            ViewCmd::MoveSelectionRight => {
                &&& view.cursor <= t.len()
                &&& !view.is_line_end(t) ==> view.selection is Some
                &&& t.len() < usize::MAX
            },
            ViewCmd::MoveSelectionLeft => {
                &&& view.cursor <= t.len()
                &&& view.column(t) > 0 ==> view.selection is Some
            },
            ViewCmd::Yank => view.selection matches Some(sel) ==> edits::selection_fits(sel, t),
            ViewCmd::YankClipboard => view.selection matches Some(sel) ==> {
                &&& edits::selection_fits(sel, t)
                &&& reply matches Reply::Done(Ok(_))
            },
            ViewCmd::Paste => self.clipboard matches Some(text) ==> p.can_paste(text),
            ViewCmd::PasteClipboard => match reply {
                Reply::Clipboard(Some(text)) => p.can_paste(text@),
                _ => true,
            },
            _ => true,
        }
    }

    /// The command can be carried out.
    pub open spec fn view_allows(self, cmd: ViewCmd, v: ViewIdx, reply: Reply) -> bool {
        let s = self.scene;
        &&& s.has_tree_focus()
        &&& s.has_pane(v)
        &&& self.pane_allows(cmd, v, reply)
        &&& match cmd {
            ViewCmd::FocusUp => self.can_refocus(Side::Up),
            ViewCmd::FocusDown => self.can_refocus(Side::Down),
            ViewCmd::FocusRight => self.can_refocus(Side::Right),
            ViewCmd::FocusLeft => self.can_refocus(Side::Left),
            ViewCmd::EnterCmd => s.in_cmd_line(v, s.tree_focus()).can_list(None),
            _ => true,
        }
    }

    /// What a command of a view asks of the world outside.
    pub open spec fn view_request(self, cmd: ViewCmd, v: ViewIdx) -> RequestView {
        match cmd {
            ViewCmd::PasteClipboard => RequestView::ReadClipboard,
            ViewCmd::YankClipboard => match self.scene.view_at(v).selection {
                Some(sel) => RequestView::WriteClipboard(
                    chomped(edits::selected(sel, self.scene.buffer_of(v).text)),
                ),
                None => RequestView::Nothing,
            },
            _ => RequestView::Nothing,
        }
    }
}

impl Editor {
    /// The view in normal mode.
    fn enter_normal(&mut self, vidx: ViewIdx)
        requires
            vidx.0 < old(self).views@.len(),
        ensures
            final(self)@ == old(self)@.in_normal(vidx),
            final(self).buffers == old(self).buffers,
            final(self).nodes == old(self).nodes,
    {
        let ghost before = self@;
        let view: &mut TextView = self.views.get_mut(vidx);
        view.mode = Mode::Normal;
        view.selection = None;
        self.cmd_line.cursor = 0;
        assert(self@ =~= before.in_normal(vidx));
    }

    fn refocus(&mut self, side: Side)
        requires
            old(self)@.can_refocus(side),
        ensures
            final(self)@ == old(self)@.refocused(side),
            final(self).buffers == old(self).buffers,
            final(self).nodes@.wf(),
    {
        let ghost before = self@;
        match side {
            Side::Up => self.nodes.focus_up(&mut self.focus),
            Side::Down => self.nodes.focus_down(&mut self.focus),
            Side::Right => self.nodes.focus_right(&mut self.focus),
            Side::Left => self.nodes.focus_left(&mut self.focus),
        }
        assert(self@ =~= before.refocused(side));
    }

    /// Carries out a command that moves the cursor or changes the mode of a
    /// view.
    fn exec_motion(&mut self, cmd: ViewCmd, vidx: ViewIdx, rect: Rect, Ghost(reply): Ghost<Reply>)
        requires
            old(self)@.view_allows(cmd, vidx, reply),
            rect == old(self)@.scene.tree_rect(),
            cmd is EnterVisual || cmd is EnterInsert || cmd is MoveUp || cmd is MoveDown
                || cmd is MoveRight || cmd is MoveLeft || cmd is MoveSelectionUp
                || cmd is MoveSelectionDown || cmd is MoveSelectionRight
                || cmd is MoveSelectionLeft,
        ensures
            final(self)@ == old(self)@.view_acted(cmd, vidx, reply),
            final(self).buffers == old(self).buffers,
            final(self).nodes == old(self).nodes,
    {
        let ghost before = self@;
        let bidx: BufferIdx = self.views.get(vidx).buf;
        let buffer: &Buffer = self.buffers.get(bidx);
        let view: &mut TextView = self.views.get_mut(vidx);
        match cmd {
            ViewCmd::EnterVisual => {
                view.mode = Mode::Visual;
                view.selection = Some((view.cursor, view.cursor + 1));
            },
            ViewCmd::EnterInsert => {
                view.mode = Mode::Insert;
                view.selection = None;
            },
            ViewCmd::MoveUp => view.move_up(&rect, buffer),
            ViewCmd::MoveDown => view.move_down(&rect, buffer),
            ViewCmd::MoveRight => view.move_right(buffer),
            ViewCmd::MoveLeft => view.move_left(buffer),
            ViewCmd::MoveSelectionUp => view.move_selection_up(&rect, buffer),
            ViewCmd::MoveSelectionDown => view.move_selection_down(&rect, buffer),
            ViewCmd::MoveSelectionRight => view.move_selection_right(buffer),
            ViewCmd::MoveSelectionLeft => view.move_selection_left(buffer),
            _ => {},
        }
        assert(self@ =~= before.view_acted(cmd, vidx, reply));
    }

    /// Carries out a command that changes the text of a buffer.
    fn exec_edit(&mut self, cmd: ViewCmd, vidx: ViewIdx, rect: Rect, Ghost(reply): Ghost<Reply>)
        -> (res: Result<(), EditorErr>)
        requires
            old(self).buffers.wf(),
            old(self)@.view_allows(cmd, vidx, reply),
            rect == old(self)@.scene.tree_rect(),
            cmd is Insert || cmd is NewLine || cmd is BackSpace || cmd is Undo || cmd is Redo,
        ensures
            final(self)@ == old(self)@.view_acted(cmd, vidx, reply),
            errors::stop_of(res) == old(self)@.view_stop(cmd, vidx),
            final(self).buffers.wf(),
            final(self).nodes == old(self).nodes,
    {
        let ghost before = self@;
        let bidx: BufferIdx = self.views.get(vidx).buf;
        let buffer: &mut Buffer = self.buffers.get_mut(bidx);
        let view: &mut TextView = self.views.get_mut(vidx);
        let res: Result<(), EditorErr> = match cmd {
            ViewCmd::Insert(c) => {
                edits::insert_char(view, buffer, c);
                Ok(())
            },
            ViewCmd::NewLine => {
                edits::new_line(view, buffer, &rect);
                Ok(())
            },
            ViewCmd::BackSpace => {
                edits::delete(view, buffer, &rect);
                Ok(())
            },
            ViewCmd::Undo => edits::undo(view, buffer),
            _ => edits::redo(view, buffer, &rect),
        };
        proof {
            let s = before.scene;
            assert(self@ =~= before.view_acted(cmd, vidx, reply));
        }
        res
    }

    /// Carries out a command that yanks or pastes.
    fn exec_clipboard(&mut self, cmd: ViewCmd, vidx: ViewIdx, reply: Reply)
        requires
            old(self).buffers.wf(),
            old(self)@.view_allows(cmd, vidx, reply),
            cmd is Yank || cmd is YankClipboard || cmd is Paste || cmd is PasteClipboard,
        ensures
            final(self)@ == old(self)@.view_acted(cmd, vidx, reply),
            final(self).buffers.wf(),
            final(self).nodes == old(self).nodes,
    {
        let ghost before = self@;
        let view: TextView = *self.views.get(vidx);
        match cmd {
            ViewCmd::Yank => {
                match view.selection {
                    Some(sel) => {
                        let text: String = edits::yanked(sel, self.buffers.get(view.buf));
                        self.clipboard = Some(text);
                        self.enter_normal(vidx);
                        assert(self@ =~= before.yanked(vidx));
                    },
                    None => {},
                }
            },
            ViewCmd::YankClipboard => {
                if view.selection.is_some() {
                    self.enter_normal(vidx);
                }
            },
            ViewCmd::Paste => {
                match &self.clipboard {
                    Some(text) => {
                        edits::paste(
                            self.views.get_mut(vidx),
                            self.buffers.get_mut(view.buf),
                            text,
                        );
                    },
                    None => {},
                }
                assert(self@ =~= before.view_acted(cmd, vidx, reply));
            },
            _ => {
                match &reply {
                    Reply::Clipboard(Some(text)) => {
                        edits::paste_clipboard(
                            self.views.get_mut(vidx),
                            self.buffers.get_mut(view.buf),
                            text,
                        );
                    },
                    _ => {},
                }
                assert(self@ =~= before.view_acted(cmd, vidx, reply));
            },
        }
    }

    fn enter_cmd(&mut self, vidx: ViewIdx, lidx: LeafIdx)
        requires
            old(self)@.scene.in_cmd_line(vidx, lidx).can_list(None),
        ensures
            final(self)@ == old(self)@.with_scene(
                old(self)@.scene.in_cmd_line(vidx, lidx).with_list(None),
            ),
            final(self).buffers == old(self).buffers,
            old(self).nodes@.wf() ==> final(self).nodes@.wf(),
    {
        let ghost before = self@;
        self.cmd_line.enter_cmd_mode(
            vidx,
            &mut self.focus,
            &self.views,
            lidx,
            &self.buffers,
            &mut self.nodes,
            &self.cwd,
        );
        assert(self@ =~= before.with_scene(
            before.scene.in_cmd_line(vidx, lidx).with_list(None),
        ));
    }

    /// Carries out a command of a view.
    pub fn exec_view_cmd(&mut self, cmd: ViewCmd, vidx: ViewIdx, reply: Reply) -> (res: Result<
        (),
        EditorErr,
    >)
        requires
            old(self).buffers.wf(),
            old(self)@.view_allows(cmd, vidx, reply),
        ensures
            final(self)@ == old(self)@.view_acted(cmd, vidx, reply),
            errors::stop_of(res) == old(self)@.view_stop(cmd, vidx),
            final(self).buffers.wf(),
            old(self).nodes@.wf() ==> final(self).nodes@.wf(),
    {
        proof {
            tree_pruning::lemma_follow_in(
                self.nodes@,
                NodeIdx::Split(SplitIdx(0)),
                self.nodes@.splits.len(),
            );
        }
        let lidx: LeafIdx = self.nodes.follow_focus(NodeIdx::Split(SplitIdx(0)));
        let rect: Rect = self.nodes.get_leaf(lidx).rect;
        let is_edit: bool = match cmd {
            ViewCmd::Insert(_) => true,
            ViewCmd::NewLine => true,
            ViewCmd::BackSpace => true,
            ViewCmd::Undo => true,
            ViewCmd::Redo => true,
            _ => false,
        };
        if is_edit {
            return self.exec_edit(cmd, vidx, rect, Ghost(reply));
        }
        match cmd {
            ViewCmd::EnterNormal => self.enter_normal(vidx),
            ViewCmd::FocusUp => self.refocus(Side::Up),
            ViewCmd::FocusDown => self.refocus(Side::Down),
            ViewCmd::FocusRight => self.refocus(Side::Right),
            ViewCmd::FocusLeft => self.refocus(Side::Left),
            ViewCmd::EnterCmd => self.enter_cmd(vidx, lidx),
            ViewCmd::Yank => self.exec_clipboard(cmd, vidx, reply),
            ViewCmd::YankClipboard => self.exec_clipboard(cmd, vidx, reply),
            ViewCmd::Paste => self.exec_clipboard(cmd, vidx, reply),
            ViewCmd::PasteClipboard => self.exec_clipboard(cmd, vidx, reply),
            ViewCmd::Noop => {},
            _ => self.exec_motion(cmd, vidx, rect, Ghost(reply)),
        }
        Ok(())
    }
}

} // verus!
