//! The keys of the command line, and what they do.
use vstd::prelude::*;
use vstd::string::*;
use crate::auto_complete;
use crate::buffers::Buffers;
use crate::cmd_line;
use crate::cmd_line::{CmdLine, CmdLineView, Mode};
use crate::commands;
use crate::editor::Editor;
use crate::errors;
use crate::errors::{EditorErr, EditorErrView};
use crate::exec;
use crate::nodes::Nodes;
use crate::requests;
use crate::requests::{Reply, RequestView};
use crate::scene::Scene;
use crate::terminal::{KeyCode, KeyEvent};
use crate::tree::LeafIdx;
use crate::view_cmds;
use crate::views::Views;

verus! {

/// What a key does in the command line.
#[derive(Clone, Copy, PartialEq, Eq, Structural)]
pub enum Action {
    EnterView,
    EnterNormal,
    EnterVisual,
    EnterInsert,
    Exec,
    Insert(char),
    BackSpace,
    YankClipboard,
    PasteClipboard,
    MoveSelectionLeft,
    MoveSelectionRight,
    MoveLeft,
    MoveRight,
    Noop,
}

/// The action of a key, by the mode of the command line.
pub open spec fn action_of_key(key: KeyEvent, mode: Mode) -> Action {
    match mode {
        Mode::Insert => match key.code {
            KeyCode::Char(c) => Action::Insert(c),
            KeyCode::Esc => Action::EnterNormal,
            KeyCode::Backspace => Action::BackSpace,
            KeyCode::Left => Action::MoveLeft,
            KeyCode::Right => Action::MoveRight,
            KeyCode::Enter => Action::Exec,
            _ => Action::Noop,
        },
        Mode::Visual => match key.code {
            KeyCode::Esc => Action::EnterNormal,
            KeyCode::Char('h') => Action::MoveSelectionLeft,
            KeyCode::Char('y') => Action::YankClipboard,
            KeyCode::Char('l') => Action::MoveSelectionRight,
            KeyCode::Char('d') => Action::BackSpace,
            _ => Action::Noop,
        },
        Mode::Normal => match key.code {
            KeyCode::Enter => Action::Exec,
            KeyCode::Esc => Action::EnterView,
            KeyCode::Char('p') => Action::PasteClipboard,
            KeyCode::Char('i') => Action::EnterInsert,
            KeyCode::Char('v') => Action::EnterVisual,
            KeyCode::Char('h') => Action::MoveLeft,
            KeyCode::Char('l') => Action::MoveRight,
            _ => Action::Noop,
        },
    }
}

pub fn key_to_action(key: KeyEvent, mode: Mode) -> (action: Action)
    ensures
        action == action_of_key(key, mode),
{
    match mode {
        Mode::Insert => match key.code {
            KeyCode::Char(c) => Action::Insert(c),
            KeyCode::Esc => Action::EnterNormal,
            KeyCode::Backspace => Action::BackSpace,
            KeyCode::Left => Action::MoveLeft,
            KeyCode::Right => Action::MoveRight,
            KeyCode::Enter => Action::Exec,
            _ => Action::Noop,
        },
        Mode::Visual => match key.code {
            KeyCode::Esc => Action::EnterNormal,
            KeyCode::Char('h') => Action::MoveSelectionLeft,
            KeyCode::Char('y') => Action::YankClipboard,
            KeyCode::Char('l') => Action::MoveSelectionRight,
            KeyCode::Char('d') => Action::BackSpace,
            _ => Action::Noop,
        },
        Mode::Normal => match key.code {
            KeyCode::Enter => Action::Exec,
            KeyCode::Esc => Action::EnterView,
            KeyCode::Char('p') => Action::PasteClipboard,
            KeyCode::Char('i') => Action::EnterInsert,
            KeyCode::Char('v') => Action::EnterVisual,
            KeyCode::Char('h') => Action::MoveLeft,
            KeyCode::Char('l') => Action::MoveRight,
            _ => Action::Noop,
        },
    }
}

// ---- running the line

impl Scene {
    /// The line read as a command and carried out.
    pub open spec fn ran(self, reply: Reply) -> (Scene, Option<EditorErrView>) {
        match commands::read_line(self.line.input) {
            Ok(cmd) => self.executed(cmd, reply),
            Err(e) => (self, Some(EditorErrView::Msg(e))),
        }
    }

    pub open spec fn can_run(self, reply: Reply) -> bool {
        commands::read_line(self.line.input) matches Ok(cmd) ==> self.can_execute(cmd, reply)
    }

    pub open spec fn run_request(self) -> RequestView {
        match commands::read_line(self.line.input) {
            Ok(cmd) => self.request_of(cmd),
            Err(_) => RequestView::Nothing,
        }
    }

    pub open spec fn with_line(self, line: CmdLineView) -> Scene {
        Scene { line, ..self }
    }

    /// What an action of the command line makes of the scene, and what stops
    /// it.
    pub open spec fn line_acted(self, action: Action, reply: Reply) -> (
        Scene,
        Option<EditorErrView>,
    ) {
        let l = self.line;
        match action {
            Action::Exec => self.ran(reply),
            Action::EnterView => (
                self.with_line(CmdLineView { selection: None, ..l }).entered(self.leaf_idx()),
                None,
            ),
            Action::Insert(c) => (
                self.with_line(l.inserted(c)).with_list(
                    auto_complete::listed_texts(requests::names_of(reply)),
                ),
                None,
            ),
            Action::BackSpace => (self.with_line(l.deleted()), None),
            Action::YankClipboard => match (l.selection, reply) {
                (Some(_), Reply::Done(Err(e))) => (self, Some(EditorErrView::Io(e@))),
                (Some(_), _) => (self.with_line(l.in_normal()), None),
                (None, _) => (self, None),
            },
            Action::PasteClipboard => match reply {
                Reply::Clipboard(Some(s)) => (
                    self.with_line(l.inserted_all(cmd_line::unbroken(s@))),
                    None,
                ),
                _ => (self, None),
            },
            Action::MoveSelectionLeft => (self.with_line(l.selection_moved_left()), None),
            Action::MoveSelectionRight => (self.with_line(l.selection_moved_right()), None),
            Action::MoveLeft => (self.with_line(l.moved_left()), None),
            Action::MoveRight => (self.with_line(l.moved_right()), None),
            Action::EnterNormal => (self.with_line(l.in_normal()), None),
            Action::EnterInsert => (self.with_line(l.in_insert()), None),
            Action::EnterVisual => (self.with_line(l.in_visual()), None),
            Action::Noop => (self, None),
        }
    }

    /// The action can be carried out.
    pub open spec fn line_allows(self, action: Action, reply: Reply) -> bool {
        let l = self.line;
        &&& self.anchored()
        &&& match action {
            Action::Exec => self.can_run(reply),
            Action::Insert(c) => {
                &&& l.can_edit()
                &&& self.with_line(l.inserted(c)).can_list(
                    auto_complete::listed_texts(requests::names_of(reply)),
                )
            },
            Action::BackSpace => l.can_delete(),
            Action::YankClipboard => l.can_yank() && (l.selection is Some ==> reply is Done),
            Action::PasteClipboard => match reply {
                Reply::Clipboard(Some(s)) => cmd_line::unbroken(s@).len() > 0 ==> l.can_edit(),
                _ => true,
            },
            Action::MoveSelectionRight => (l.at_end() || l.on_char()) && l.can_stretch(),
            Action::MoveRight => l.at_end() || l.on_char(),
            Action::EnterVisual => l.at_end() || l.on_char(),
            _ => true,
        }
    }

    /// What an action of the command line asks of the world outside.
    pub open spec fn line_request(self, action: Action) -> RequestView {
        let l = self.line;
        match action {
            Action::Exec => self.run_request(),
            Action::Insert(c) => RequestView::List(
                auto_complete::listing_of(l.inserted(c).input),
            ),
            Action::YankClipboard => match l.selection {
                Some(sel) => RequestView::WriteClipboard(view_cmds::chomped(l.between(sel))),
                None => RequestView::Nothing,
            },
            Action::PasteClipboard => RequestView::ReadClipboard,
            _ => RequestView::Nothing,
        }
    }
}

impl CmdLine {
    /// Reads the line as a command and carries it out.
    pub fn exec(
        &mut self,
        nodes: &mut Nodes,
        views: &mut Views,
        focus: &mut LeafIdx,
        buffers: &mut Buffers,
        cwd: &mut String,
        reply: Reply,
    ) -> (res: Result<(), EditorErr>)
        requires
            old(buffers).wf(),
            Scene::new(
                *old(self),
                *old(nodes),
                *old(focus),
                *old(views),
                *old(buffers),
                *old(cwd),
            ).can_run(reply),
        ensures
            final(buffers).wf(),
            (
                Scene::new(
                    *final(self),
                    *final(nodes),
                    *final(focus),
                    *final(views),
                    *final(buffers),
                    *final(cwd),
                ),
                errors::stop_of(res),
            ) == Scene::new(
                *old(self),
                *old(nodes),
                *old(focus),
                *old(views),
                *old(buffers),
                *old(cwd),
            ).ran(reply),
            old(nodes)@.wf() ==> final(nodes)@.wf(),
    {
        match commands::parse_cmd(&self.input) {
            Ok(cmd) => exec::exec_cmd(cmd, self, nodes, focus, views, buffers, cwd, reply),
            Err(s) => Err(EditorErr::Msg(s)),
        }
    }
}

impl Editor {
    fn run_line(&mut self, reply: Reply) -> (res: Result<(), EditorErr>)
        requires
            old(self).buffers.wf(),
            old(self)@.scene.can_run(reply),
        ensures
            final(self).buffers.wf(),
            (final(self)@.scene, errors::stop_of(res)) == old(self)@.scene.ran(reply),
            final(self)@.clipboard == old(self)@.clipboard,
            old(self).nodes@.wf() ==> final(self).nodes@.wf(),
    {
        self.cmd_line.exec(
            &mut self.nodes,
            &mut self.views,
            &mut self.focus,
            &mut self.buffers,
            &mut self.cwd,
            reply,
        )
    }

    /// Types a character in the command line and opens the completion list.
    fn type_in_line(&mut self, c: char, listed: &Option<Vec<String>>)
        requires
            old(self)@.scene.line.can_edit(),
            old(self)@.scene.with_line(old(self)@.scene.line.inserted(c)).can_list(
                auto_complete::listed_texts(*listed),
            ),
        ensures
            final(self)@ == old(self)@.with_scene(
                old(self)@.scene.with_line(old(self)@.scene.line.inserted(c)).with_list(
                    auto_complete::listed_texts(*listed),
                ),
            ),
            final(self).buffers == old(self).buffers,
            old(self).nodes@.wf() ==> final(self).nodes@.wf(),
    {
        let ghost before = self@;
        let ghost s = before.scene.with_line(before.scene.line.inserted(c));
        self.cmd_line.insert(c);
        assert(self@.scene =~= s);
        view_cmds::open_list(
            &self.cmd_line,
            &mut self.focus,
            &self.buffers,
            &mut self.nodes,
            listed,
            Ghost(s),
        );
        assert(self@ =~= before.with_scene(s.with_list(auto_complete::listed_texts(*listed))));
    }

    /// Carries out an action that only the line itself takes part in.
    fn edit_line(&mut self, action: Action, Ghost(reply): Ghost<Reply>)
        requires
            old(self)@.scene.line_allows(action, reply),
            action is BackSpace || action is MoveSelectionLeft || action is MoveSelectionRight
                || action is MoveLeft || action is MoveRight || action is EnterNormal
                || action is EnterInsert || action is EnterVisual || action is Noop,
        ensures
            final(self)@ == old(self)@.with_scene(
                old(self)@.scene.line_acted(action, reply).0,
            ),
            old(self)@.scene.line_acted(action, reply).1 is None,
            final(self).buffers == old(self).buffers,
            final(self).nodes == old(self).nodes,
    {
        let ghost before = self@;
        match action {
            Action::BackSpace => self.cmd_line.delete(),
            Action::MoveSelectionLeft => self.cmd_line.move_selection_left(),
            Action::MoveSelectionRight => self.cmd_line.move_selection_right(),
            Action::MoveLeft => self.cmd_line.move_left(),
            Action::MoveRight => self.cmd_line.move_right(),
            Action::EnterNormal => self.cmd_line.enter_normal(),
            Action::EnterInsert => self.cmd_line.enter_insert(),
            Action::EnterVisual => self.cmd_line.enter_visual(),
            _ => {},
        }
        assert(self@ =~= before.with_scene(before.scene.line_acted(action, reply).0));
    }

    /// Carries out an action of the command line.
    pub fn exec_line_action(&mut self, action: Action, reply: Reply) -> (res: Result<
        (),
        EditorErr,
    >)
        requires
            old(self).buffers.wf(),
            old(self)@.scene.line_allows(action, reply),
        ensures
            final(self).buffers.wf(),
            (final(self)@.scene, errors::stop_of(res)) == old(self)@.scene.line_acted(
                action,
                reply,
            ),
            final(self)@.clipboard == old(self)@.clipboard,
            old(self).nodes@.wf() ==> final(self).nodes@.wf(),
    {
        let ghost before = self@;
        match action {
            Action::Exec => self.run_line(reply),
            Action::EnterView => {
                self.cmd_line.selection = None;
                self.cmd_line.mode = Mode::Insert;
                self.cmd_line.cursor = 0;
                self.focus = self.cmd_line.last_view.0;
                assert(self@.scene =~= before.scene.line_acted(action, reply).0);
                Ok(())
            },
            Action::Insert(c) => {
                let listed: Option<Vec<String>> = match reply {
                    Reply::Names(names) => names,
                    _ => None,
                };
                self.type_in_line(c, &listed);
                Ok(())
            },
            Action::YankClipboard => {
                if self.cmd_line.selection.is_some() {
                    match reply {
                        Reply::Done(Err(e)) => {
                            return Err(EditorErr::Io(e));
                        },
                        _ => {},
                    }
                    self.cmd_line.enter_normal();
                    assert(self@.scene =~= before.scene.line_acted(action, reply).0);
                }
                Ok(())
            },
            Action::PasteClipboard => {
                match &reply {
                    Reply::Clipboard(Some(s)) => {
                        self.cmd_line.paste(s.as_str());
                    },
                    _ => {},
                }
                assert(self@.scene =~= before.scene.line_acted(action, reply).0);
                Ok(())
            },
            _ => {
                self.edit_line(action, Ghost(reply));
                Ok(())
            },
        }
    }
}

} // verus!
