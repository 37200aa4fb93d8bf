//! A key from the terminal, from what it asks for to what it does.
use vstd::prelude::*;
use vstd::string::*;
use crate::auto_complete;
use crate::auto_complete::AutoComplete;
use crate::buffers::{Buffer, BufferIdx, NON_NAVIGATABLE};
use crate::cmd_line::{CmdLine, CmdLineView};
use crate::commands;
use crate::commands::{ArgVal, Cmd, CmdVal};
use crate::edits;
use crate::editor::{Editor, EditorView};
use crate::errors;
use crate::errors::{EditorErr, EditorErrView};
use crate::exec;
use crate::line_cmds;
use crate::line_cmds::Action;
use crate::list_cmds;
use crate::list_cmds::ListAction;
use crate::nodes::Component;
use crate::requests::{Reply, Request, RequestView};
use crate::scene::Scene;
use crate::steady;
use crate::strings;
use crate::terminal::KeyEvent;
use crate::text;
use crate::tree::{ComponentView, NodeIdx, SplitIdx};
use crate::tree_pruning;
use crate::view_cmds;
use crate::view_cmds::ViewCmd;
use crate::views::{TextView, ViewIdx};

verus! {

impl EditorView {
    /// What the leaf in focus shows.
    pub open spec fn comp(self) -> ComponentView {
        self.scene.nodes.leaf(self.scene.focus).comp
    }

    pub open spec fn view_cmd(self, key: KeyEvent, v: ViewIdx) -> ViewCmd {
        view_cmds::cmd_of_key(key, self.scene.view_at(v).mode)
    }

    pub open spec fn line_action(self, key: KeyEvent) -> Action {
        line_cmds::action_of_key(key, self.scene.line.mode)
    }

    /// What a key makes of the editor, and what stops it.
    pub open spec fn stepped(self, key: KeyEvent, reply: Reply) -> (
        EditorView,
        Option<EditorErrView>,
    ) {
        match self.comp() {
            ComponentView::View(v) => (
                self.view_acted(self.view_cmd(key, v), v, reply),
                self.view_stop(self.view_cmd(key, v), v),
            ),
            ComponentView::CmdLine => {
                let (s, stop) = self.scene.line_acted(self.line_action(key), reply);
                (self.with_scene(s), stop)
            },
            ComponentView::AutoComplete(ac) => {
                let (s, stop) = self.scene.list_acted(
                    list_cmds::list_action_of_key(key),
                    ac,
                    reply,
                );
                (self.with_scene(s), stop)
            },
            ComponentView::BufferList => (self, None),
        }
    }

    /// The key can be carried out with what was told.
    pub open spec fn allows(self, key: KeyEvent, reply: Reply) -> bool {
        &&& self.scene.focus.0 < self.scene.nodes.leaves.len()
        &&& match self.comp() {
            ComponentView::View(v) => self.view_allows(self.view_cmd(key, v), v, reply),
            ComponentView::CmdLine => self.scene.line_allows(self.line_action(key), reply),
            ComponentView::AutoComplete(ac) => self.scene.list_allows(
                list_cmds::list_action_of_key(key),
                ac,
                reply,
            ),
            ComponentView::BufferList => true,
        }
    }

    /// What a key asks of the world outside.
    pub open spec fn request(self, key: KeyEvent) -> RequestView {
        match self.comp() {
            ComponentView::View(v) => self.view_request(self.view_cmd(key, v), v),
            ComponentView::CmdLine => self.scene.line_request(self.line_action(key)),
            ComponentView::AutoComplete(_) => self.scene.list_request(
                list_cmds::list_action_of_key(key),
            ),
            ComponentView::BufferList => RequestView::Nothing,
        }
    }

    /// It can be told what a key asks for.
    pub open spec fn can_ask(self, key: KeyEvent) -> bool {
        let s = self.scene;
        &&& s.focus.0 < s.nodes.leaves.len()
        &&& match self.comp() {
            ComponentView::View(v) => {
                &&& s.has_pane(v)
                &&& self.view_cmd(key, v) is YankClipboard ==> (s.view_at(v).selection matches Some(
                    sel,
                ) ==> edits::selection_fits(sel, s.buffer_of(v).text))
            },
            ComponentView::CmdLine => match self.line_action(key) {
                Action::Exec => s.can_ask_to_run(),
                Action::Insert(_) => s.line.can_edit(),
                Action::YankClipboard => s.line.can_yank(),
                _ => true,
            },
            ComponentView::AutoComplete(_) => match list_cmds::list_action_of_key(key) {
                ListAction::Exec => s.can_ask_to_run(),
                ListAction::BackSpace => s.line.can_edit(),
                ListAction::Insert(_) => s.line.can_edit(),
                _ => true,
            },
            ComponentView::BufferList => true,
        }
    }
}

impl Scene {
    /// The view that the command line was entered from has a buffer.
    pub open spec fn can_ask_to_run(self) -> bool {
        self.view_idx().0 < self.views.len() && self.buffers.has(self.buffer_idx())
    }
}

impl Editor {
    /// What a command of the command line asks for.
    fn command_request(&self, cmd: &CmdVal) -> (res: Request)
        requires
            self@.scene.can_ask_to_run(),
        ensures
            res@ == self@.scene.request_of(cmd@),
    {
        let ghost s = self@.scene;
        let vidx: ViewIdx = self.cmd_line.last_view.1;
        let bidx: BufferIdx = self.views.get(vidx).buf;
        match cmd.cmd {
            Cmd::Cd => match &cmd.argument {
                Some(ArgVal::DirectoryPath(p)) => Request::EnterDirectory(p.clone()),
                _ => Request::Nothing,
            },
            Cmd::Open => match &cmd.argument {
                Some(ArgVal::FilePath(p)) => Request::OpenFile(p.clone()),
                _ => Request::Nothing,
            },
            Cmd::BufferSwitch => match &cmd.argument {
                Some(ArgVal::BufferIndex(i)) => {
                    if *i < self.buffers.len() {
                        let buffer: &Buffer = self.buffers.get(BufferIdx { idx: *i });
                        let bare: bool = text::rope_len_chars(&buffer.buf) == 0;
                        if bare && !buffer.check_flag(NON_NAVIGATABLE) {
                            match &buffer.file {
                                Some(p) => {
                                    return Request::ReloadFile(p.clone());
                                },
                                None => {},
                            }
                        }
                    }
                    Request::Nothing
                },
                _ => Request::Nothing,
            },
            Cmd::Save => {
                let buffer: &Buffer = self.buffers.get(bidx);
                if exec::save_stop(&cmd.argument, bidx, buffer).is_some() {
                    return Request::Nothing;
                }
                let content: String = text::rope_slice(
                    &buffer.buf,
                    0,
                    text::rope_len_chars(&buffer.buf),
                );
                assert(content@ =~= buffer@.text);
                match &cmd.argument {
                    Some(ArgVal::FilePath(p)) => Request::WriteFile(p.clone(), content),
                    _ => match &buffer.file {
                        Some(p) => Request::WriteFile(p.clone(), content),
                        None => Request::Nothing,
                    },
                }
            },
            _ => Request::Nothing,
        }
    }

    /// What the line asks for when it is carried out.
    fn run_request(&self) -> (res: Request)
        requires
            self@.scene.can_ask_to_run(),
        ensures
            res@ == self@.scene.run_request(),
    {
        match commands::parse_cmd(&self.cmd_line.input) {
            Ok(cmd) => self.command_request(&cmd),
            Err(_) => Request::Nothing,
        }
    }

    fn view_request(&self, cmd: ViewCmd, vidx: ViewIdx) -> (res: Request)
        requires
            self@.scene.has_pane(vidx),
            cmd is YankClipboard ==> (self@.scene.view_at(vidx).selection matches Some(sel)
                ==> edits::selection_fits(sel, self@.scene.buffer_of(vidx).text)),
        ensures
            res@ == self@.view_request(cmd, vidx),
    {
        match cmd {
            ViewCmd::PasteClipboard => Request::ReadClipboard,
            ViewCmd::YankClipboard => {
                let view: TextView = *self.views.get(vidx);
                match view.selection {
                    Some(sel) => {
                        let s: String = edits::yanked(sel, self.buffers.get(view.buf));
                        Request::WriteClipboard(view_cmds::clipboard_text(s.as_str()))
                    },
                    None => Request::Nothing,
                }
            },
            _ => Request::Nothing,
        }
    }

    fn line_request(&self, action: Action) -> (res: Request)
        requires
            action is Exec ==> self@.scene.can_ask_to_run(),
            action is Insert ==> self@.scene.line.can_edit(),
            action is YankClipboard ==> self@.scene.line.can_yank(),
        ensures
            res@ == self@.scene.line_request(action),
    {
        match action {
            Action::Exec => self.run_request(),
            Action::Insert(c) => {
                let mut l: CmdLine = self.cmd_line.copy();
                l.insert(c);
                Request::List(auto_complete::wanted_listing(l.input.as_str()))
            },
            Action::YankClipboard => match self.cmd_line.selection {
                Some(sel) => {
                    let s: String = self.cmd_line.selected(sel);
                    Request::WriteClipboard(view_cmds::clipboard_text(s.as_str()))
                },
                None => Request::Nothing,
            },
            Action::PasteClipboard => Request::ReadClipboard,
            _ => Request::Nothing,
        }
    }

    fn list_request(&self, action: ListAction) -> (res: Request)
        requires
            action is Exec ==> self@.scene.can_ask_to_run(),
            action is Insert || action is BackSpace ==> self@.scene.line.can_edit(),
        ensures
            res@ == self@.scene.list_request(action),
    {
        match action {
            ListAction::Exec => {
                proof {
                    lemma_same_request(self@.scene);
                }
                self.run_request()
            },
            ListAction::BackSpace => {
                let mut l: CmdLine = self.cmd_line.copy();
                l.backspace();
                Request::List(auto_complete::wanted_listing(l.input.as_str()))
            },
            ListAction::Insert(c) => {
                let mut l: CmdLine = self.cmd_line.copy();
                l.insert(c);
                Request::List(auto_complete::wanted_listing(l.input.as_str()))
            },
            _ => Request::Nothing,
        }
    }

    /// What a key asks of the world outside before it can be carried out.
    pub fn request(&self, key: KeyEvent) -> (res: Request)
        requires
            self@.can_ask(key),
        ensures
            res@ == self@.request(key),
    {
        match &self.nodes.get_leaf(self.focus).comp {
            Component::View(v) => {
                let cmd: ViewCmd = view_cmds::key_to_cmd(key, self.views.get(*v).mode);
                self.view_request(cmd, *v)
            },
            Component::CmdLine(_) => {
                let action: Action = line_cmds::key_to_action(key, self.cmd_line.mode);
                self.line_request(action)
            },
            Component::AutoComplete(_) => {
                let action: ListAction = list_cmds::key_to_list_action(key);
                self.list_request(action)
            },
            Component::BufferList => Request::Nothing,
        }
    }

    /// Carries out a key, with the answer to what it asked for.
    pub fn key_to_exec(&mut self, key: KeyEvent, reply: Reply) -> (res: Result<(), EditorErr>)
        requires
            old(self).buffers.wf(),
            old(self)@.allows(key, reply),
        ensures
            final(self).buffers.wf(),
            (final(self)@, errors::stop_of(res)) == old(self)@.stepped(key, reply),
            old(self).nodes@.wf() ==> final(self).nodes@.wf(),
            old(self)@.scene.steady() && old(self)@.scene.spacious()
                ==> final(self)@.scene.steady(),
    {
        proof {
            if self@.scene.steady() && self@.scene.spacious() {
                steady::law_stepped(self@, key, reply);
            }
        }
        match &self.nodes.get_leaf(self.focus).comp {
            Component::View(v) => {
                let v: ViewIdx = *v;
                let cmd: ViewCmd = view_cmds::key_to_cmd(key, self.views.get(v).mode);
                self.exec_view_cmd(cmd, v, reply)
            },
            Component::CmdLine(_) => {
                let action: Action = line_cmds::key_to_action(key, self.cmd_line.mode);
                self.exec_line_action(action, reply)
            },
            Component::AutoComplete(ac) => {
                let list: AutoComplete = list_cmds::copy_list(ac);
                let action: ListAction = list_cmds::key_to_list_action(key);
                self.exec_list_action(action, list, reply)
            },
            Component::BufferList => Ok(()),
        }
    }
}

/// Closing the list does not change what the line asks for.
proof fn lemma_same_request(s: Scene)
    requires
        s.can_ask_to_run(),
    ensures
        s.without_list().run_request() == s.run_request(),
{
    let t = s.without_list();
    assert(t.view() == s.view());
}

// ---- what stops a command, told

/// What happens after a command was stopped.
pub enum Outcome {
    /// The editor goes on.
    Continue,
    /// It goes on, and something is noted in the log.
    Log(String),
    /// It ends, and something may be noted in the log.
    Stop(Option<String>),
}

#[verifier::ext_equal]
pub enum OutcomeView {
    Continue,
    Log(Seq<char>),
    Stop(Option<Seq<char>>),
}

impl View for Outcome {
    type V = OutcomeView;

    open spec fn view(&self) -> OutcomeView {
        match *self {
            Outcome::Continue => OutcomeView::Continue,
            Outcome::Log(s) => OutcomeView::Log(s@),
            Outcome::Stop(s) => OutcomeView::Stop(strings::option_text(s)),
        }
    }
}

pub open spec fn outcome_of(e: EditorErrView) -> OutcomeView {
    match e {
        EditorErrView::Log(s) => OutcomeView::Log(s),
        EditorErrView::Io(s) => OutcomeView::Stop(Some("IO error: "@ + s)),
        EditorErrView::Quit => OutcomeView::Stop(None),
        _ => OutcomeView::Continue,
    }
}

/// What is shown in the command line.
pub open spec fn message_of(e: EditorErrView) -> Option<Seq<char>> {
    match e {
        EditorErrView::Msg(s) => Some(s),
        EditorErrView::Dirty(b) => Some(
            "buffer:"@ + strings::decimal(b.idx as nat) + " is dirty"@,
        ),
        EditorErrView::InvalidBuffer => Some("index is invalid"@),
        EditorErrView::ReadOnly(b) => Some(
            "buffer:"@ + strings::decimal(b.idx as nat) + "is read only"@,
        ),
        _ => None,
    }
}

impl EditorView {
    /// The message shown, the focus where the tree leads, unless the editor
    /// ends.
    pub open spec fn told(self, e: EditorErrView) -> EditorView {
        if outcome_of(e) is Stop {
            self
        } else {
            let s = self.scene;
            let line = match message_of(e) {
                Some(m) => CmdLineView { error: false, ..s.line.with_error(m) },
                None => CmdLineView { error: false, ..s.line },
            };
            self.with_scene(Scene { line, focus: s.tree_focus(), ..s })
        }
    }
}

impl Editor {
    /// Tells what stopped a command.
    pub fn report(&mut self, e: EditorErr) -> (res: Outcome)
        requires
            old(self)@.scene.has_tree_focus(),
        ensures
            final(self)@ == old(self)@.told(e@),
            res@ == outcome_of(e@),
            final(self).buffers == old(self).buffers,
            final(self).nodes == old(self).nodes,
            old(self)@.scene.steady() ==> final(self)@.scene.steady(),
    {
        let ghost before = self@;
        let ghost ev = e@;
        proof {
            if before.scene.steady() {
                steady::law_told(before, ev);
            }
        }
        let outcome: Outcome = match e {
            EditorErr::Msg(msg) => {
                self.cmd_line.error(msg.as_str());
                Outcome::Continue
            },
            EditorErr::Dirty(idx) => {
                let mut msg: String = "buffer:".to_string();
                let n: String = strings::to_decimal(idx.idx);
                msg.append(n.as_str());
                msg.append(" is dirty");
                self.cmd_line.error(msg.as_str());
                Outcome::Continue
            },
            EditorErr::InvalidBuffer => {
                self.cmd_line.error("index is invalid");
                Outcome::Continue
            },
            EditorErr::ReadOnly(idx) => {
                let mut msg: String = "buffer:".to_string();
                let n: String = strings::to_decimal(idx.idx);
                msg.append(n.as_str());
                msg.append("is read only");
                self.cmd_line.error(msg.as_str());
                Outcome::Continue
            },
            EditorErr::Log(msg) => Outcome::Log(msg),
            EditorErr::Io(msg) => {
                let mut note: String = "IO error: ".to_string();
                note.append(msg.as_str());
                return Outcome::Stop(Some(note));
            },
            EditorErr::Quit => {
                return Outcome::Stop(None);
            },
        };
        proof {
            tree_pruning::lemma_follow_in(
                self.nodes@,
                NodeIdx::Split(SplitIdx(0)),
                self.nodes@.splits.len(),
            );
        }
        self.focus = self.nodes.follow_focus(NodeIdx::Split(SplitIdx(0)));
        self.cmd_line.error = false;
        assert(self@ =~= before.told(ev));
        outcome
    }
}

} // verus!
