//! Trying whether a key can be carried out, without carrying it out.
use vstd::prelude::*;
use vstd::string::*;
use ropey::Rope;
use crate::auto_complete;
use crate::auto_complete::AutoComplete;
use crate::buffers;
use crate::buffers::{
    Buffer, BufferIdx, BufferView, Buffers, Edit, NON_NAVIGATABLE, READ_ONLY, SCRATCH,
};
use crate::cmd_line;
use crate::cmd_line::CmdLine;
use crate::commands;
use crate::commands::{ArgVal, Cmd, CmdVal};
use crate::edits;
use crate::editor::Editor;
use crate::exec;
use crate::layout::Rect;
use crate::line_cmds;
use crate::line_cmds::Action;
use crate::list_cmds;
use crate::list_cmds::ListAction;
use crate::nodes::{Component, Nodes};
use crate::orderly;
use crate::ready;
use crate::requests;
use crate::requests::Reply;
use crate::scene;
use crate::scene::Scene;
use crate::steady;
use crate::strings;
use crate::terminal::KeyEvent;
use crate::text;
use crate::tree::{ComponentView, LeafIdx, NodeIdx, Side, SplitIdx, ROOT_OVERLAY};
use crate::view_cmds;
use crate::view_cmds::ViewCmd;
use crate::views::{TextView, ViewIdx, Views};

verus! {

// ---- the commands of the command line

/// The view that the command line was entered from, and its leaf, are there.
fn is_anchored(cmd_line: &CmdLine, nodes: &Nodes, views: &Views, Ghost(s): Ghost<Scene>) -> (res:
    bool)
    requires
        s.line == cmd_line@,
        s.nodes == nodes@,
        s.views == views@,
    ensures
        res == s.anchored(),
{
    cmd_line.last_view.0.0 < nodes.leaf_count() && cmd_line.last_view.1.0 < views.0.len()
}

fn may_close_buffer(
    argument: &Option<ArgVal>,
    force: bool,
    bidx: BufferIdx,
    buffers: &Buffers,
    Ghost(s): Ghost<Scene>,
) -> (res: bool)
    requires
        s.buffers == buffers@,
        s.buffer_idx() == bidx,
    ensures
        res == s.can_close_buffer(commands::option_arg(*argument), force),
{
    let target: BufferIdx = match argument {
        None => bidx,
        Some(ArgVal::BufferIndex(i)) => BufferIdx { idx: *i },
        Some(_) => {
            return false;
        },
    };
    if target.idx >= buffers.len() {
        return false;
    }
    let b: &Buffer = buffers.get(target);
    target.idx == SCRATCH || b.check_flag(READ_ONLY) || (b.undo.len() > 0 && !force)
        || b.generation < u64::MAX
}

fn may_open(
    argument: &Option<ArgVal>,
    reply: &Reply,
    buffers: &Buffers,
    Ghost(s): Ghost<Scene>,
) -> (res: bool)
    requires
        buffers.wf(),
        s.buffers == buffers@,
    ensures
        res == s.can_open(commands::option_arg(*argument), *reply),
{
    match argument {
        Some(ArgVal::FilePath(_)) => match reply {
            Reply::File(f) => {
                let open: Option<BufferIdx> = match &f.resolved {
                    Some(p) => buffers.get_by_path(p),
                    None => None,
                };
                assert(open == s.opened(strings::option_text(f.resolved)));
                match open {
                    Some(b) => {
                        let buffer: &Buffer = buffers.get(b);
                        buffer.last_cursor <= text::rope_len_chars(&buffer.buf)
                    },
                    None => true,
                }
            },
            _ => false,
        },
        _ => true,
    }
}

/// Whether a view that turns to another buffer can scroll there.
fn may_turn(
    view: &TextView,
    rect: &Rect,
    idx: BufferIdx,
    rope: &Rope,
    buffers: &Buffers,
    Ghost(s): Ghost<Scene>,
    Ghost(reply): Ghost<Reply>,
) -> (res: bool)
    requires
        s.buffers == buffers@,
        s.buffers.has(idx),
        s.buffers.has(s.buffer_idx()),
        s.anchored(),
        *view == s.view(),
        *rect == s.nodes.leaf(s.leaf_idx()).rect,
        text::rope_text(*rope) == s.left().reloaded_buffer(idx, reply).text,
    ensures
        res == s.turned_to(idx, reply).view().can_scroll(
            s.turned_to(idx, reply).buffers.at(idx).text,
            *rect,
        ),
{
    let buffer: &Buffer = buffers.get(idx);
    let own: bool = idx.idx == view.buf.idx;
    let last_cursor: usize = if own {
        view.cursor
    } else {
        buffer.last_cursor
    };
    let last_off: usize = if own {
        view.off
    } else {
        buffer.last_off
    };
    let len: usize = text::rope_len_chars(rope);
    let mut v: TextView = *view;
    v.cursor = if last_cursor > len {
        len
    } else {
        last_cursor
    };
    v.off = if last_off > len {
        len
    } else {
        last_off
    };
    proof {
        let b = scene::remembered(s.left().reloaded_buffer(idx, reply));
        let t = s.turned_to(idx, reply);
        assert(t.buffers.at(idx) == b);
        assert(t.view() == scene::switched_view(*view, idx, b));
        assert(t.view().cursor == v.cursor);
        assert(t.view().off == v.off);
        assert(t.view().line(b.text) == v.line(b.text));
    }
    v.may_scroll(rect, rope)
}

fn may_switch_buffer(
    argument: &Option<ArgVal>,
    reply: &Reply,
    view: &TextView,
    rect: &Rect,
    buffers: &Buffers,
    Ghost(s): Ghost<Scene>,
) -> (res: bool)
    requires
        s.buffers == buffers@,
        s.anchored(),
        s.buffers.has(s.buffer_idx()),
        *view == s.view(),
        *rect == s.nodes.leaf(s.leaf_idx()).rect,
    ensures
        res == s.can_switch_buffer(commands::option_arg(*argument), *reply),
{
    let idx: BufferIdx = match argument {
        Some(ArgVal::BufferIndex(i)) => BufferIdx { idx: *i },
        _ => {
            return false;
        },
    };
    if idx.idx >= buffers.len() {
        return true;
    }
    let buffer: &Buffer = buffers.get(idx);
    if buffer.check_flag(NON_NAVIGATABLE) {
        return true;
    }
    let bare: bool = text::rope_len_chars(&buffer.buf) == 0;
    let reloads: bool = bare && buffer.file.is_some();
    assert(reloads == s.left().needs_reload(idx));
    if reloads {
        match reply {
            Reply::Reloaded(Some(Ok(content))) => {
                let rope: Rope = text::rope_from_str(content.as_str());
                may_turn(view, rect, idx, &rope, buffers, Ghost(s), Ghost(*reply))
            },
            Reply::Reloaded(Some(Err(_))) => true,
            Reply::Reloaded(None) => may_turn(
                view,
                rect,
                idx,
                &buffer.buf,
                buffers,
                Ghost(s),
                Ghost(*reply),
            ),
            _ => false,
        }
    } else {
        may_turn(view, rect, idx, &buffer.buf, buffers, Ghost(s), Ghost(*reply))
    }
}

fn may_save(
    argument: &Option<ArgVal>,
    reply: &Reply,
    bidx: BufferIdx,
    buffers: &Buffers,
    Ghost(s): Ghost<Scene>,
) -> (res: bool)
    requires
        s.buffers == buffers@,
        s.buffer_idx() == bidx,
        s.buffers.has(bidx),
    ensures
        res == s.can_save(commands::option_arg(*argument), *reply),
{
    match argument {
        None => {},
        Some(ArgVal::FilePath(_)) => {},
        _ => {
            return false;
        },
    }
    let stop: bool = exec::save_stop(argument, bidx, buffers.get(bidx)).is_some();
    assert(stop == s.save_stop(commands::option_arg(*argument)) is Some);
    stop || matches!(reply, Reply::Done(_))
}

/// A split has room for another child.
fn has_place(nodes: &Nodes, sidx: SplitIdx) -> (res: bool)
    requires
        sidx.0 < nodes@.splits.len(),
    ensures
        res == nodes@.has_place(sidx),
{
    nodes.get_split(sidx).children.len() < u16::MAX as usize
}

fn overlay_has_room(nodes: &Nodes, Ghost(s): Ghost<Scene>) -> (res: bool)
    requires
        s.nodes == nodes@,
        s.steady(),
    ensures
        res == s.overlay_has_room(),
{
    assert(s.nodes.live(NodeIdx::Split(s.nodes.roots[2])));
    let root: SplitIdx = nodes.get_root(ROOT_OVERLAY);
    has_place(nodes, root)
}

/// Tries whether a command can be carried out.
fn cmd_is_ready(
    cmd: &CmdVal,
    cmd_line: &CmdLine,
    nodes: &Nodes,
    views: &Views,
    buffers: &Buffers,
    reply: &Reply,
    Ghost(s): Ghost<Scene>,
) -> (res: bool)
    requires
        s.line == cmd_line@,
        s.nodes == nodes@,
        s.views == views@,
        s.buffers == buffers@,
        buffers.wf(),
        s.steady(),
    ensures
        res == s.cmd_ready(cmd@, *reply),
{
    if !is_anchored(cmd_line, nodes, views, Ghost(s)) {
        return false;
    }
    let (lidx, vidx) = cmd_line.last_view;
    let view: &TextView = views.get(vidx);
    proof {
        let _ = s.views[vidx.0 as int];
        let _ = s.nodes.leaves[lidx.0 as int];
    }
    let parent: SplitIdx = nodes.get_leaf(lidx).parent;
    let attached: bool = nodes.position(parent, NodeIdx::Leaf(lidx)).is_some();
    assert(attached == s.is_attached());
    match cmd.cmd {
        Cmd::Cd => match &cmd.argument {
            Some(ArgVal::DirectoryPath(_)) => matches!(reply, Reply::Directory(_)),
            _ => true,
        },
        Cmd::Pwd => true,
        Cmd::Quit => true,
        Cmd::BufferClose => may_close_buffer(&cmd.argument, cmd.force, view.buf, buffers, Ghost(s)),
        Cmd::Open => may_open(&cmd.argument, reply, buffers, Ghost(s)),
        Cmd::ViewClose => attached,
        Cmd::BufferSwitch => may_switch_buffer(
            &cmd.argument,
            reply,
            view,
            &nodes.get_leaf(lidx).rect,
            buffers,
            Ghost(s),
        ),
        Cmd::BufferList => {
            let shown: u16 = #[verifier::truncate] (buffers.len() as u16);
            shown <= u16::MAX - 2 && overlay_has_room(nodes, Ghost(s))
        },
        Cmd::Save => may_save(&cmd.argument, reply, view.buf, buffers, Ghost(s)),
        Cmd::SplitV => !attached || has_place(nodes, parent),
        Cmd::SplitH => !attached || has_place(nodes, parent),
        Cmd::Split => nodes.is_in_use(parent) && has_place(nodes, parent),
    }
}

/// Tries whether the line can be carried out.
fn run_is_ready(
    cmd_line: &CmdLine,
    nodes: &Nodes,
    views: &Views,
    buffers: &Buffers,
    reply: &Reply,
    Ghost(s): Ghost<Scene>,
) -> (res: bool)
    requires
        s.line == cmd_line@,
        s.nodes == nodes@,
        s.views == views@,
        s.buffers == buffers@,
        buffers.wf(),
        s.steady(),
    ensures
        res == s.run_ready(*reply),
{
    match commands::parse_cmd(&cmd_line.input) {
        Ok(cmd) => cmd_is_ready(&cmd, cmd_line, nodes, views, buffers, reply, Ghost(s)),
        Err(_) => true,
    }
}

// ---- the keys of a view

/// Whether the last edit of a stack can be taken back.
fn may_revert_last(stack: &Vec<Edit>, buffer: &Buffer) -> (res: bool)
    ensures
        res == (stack@.len() > 0 ==> edits::can_revert(
            buffers::edit_views(stack@).last(),
            buffer@.text.len() as int,
        )),
{
    let n: usize = stack.len();
    if n == 0 {
        return true;
    }
    assert(buffers::edit_views(stack@).last() == stack@[n - 1]@);
    edits::may_revert(&stack[n - 1], text::rope_len_chars(&buffer.buf))
}

fn selection_is_in(view: &TextView, buffer: &Buffer) -> (res: bool)
    ensures
        res == (view.selection matches Some(sel) ==> edits::selection_fits(sel, buffer@.text)),
{
    match view.selection {
        Some(sel) => {
            let len: usize = text::rope_len_chars(&buffer.buf);
            sel.0 <= len && sel.1 <= len
        },
        None => true,
    }
}

fn may_paste(view: &TextView, s: &String) -> (res: bool)
    ensures
        forall|b: BufferView| #[trigger] edits::Pane::new(*view, b).can_paste(s@) == res,
{
    let n: usize = s.as_str().unicode_len();
    view.cursor < usize::MAX && n <= usize::MAX - view.cursor
}

impl Editor {
    fn is_spacious(&self) -> (res: bool)
        ensures
            res == self@.scene.spacious(),
    {
        self.nodes.split_count() < usize::MAX && self.nodes.leaf_count() < usize::MAX - 3
            && self.views.0.len() < usize::MAX - 2 && self.buffers.len() < usize::MAX
    }

    fn focus_is_ready(&self, side: Side) -> (res: bool)
        requires
            self@.scene.steady(),
        ensures
            res == self@.can_refocus(side),
    {
        self.nodes.may_refocus(self.focus, side)
    }

    /// Tries whether the cursor of a view can move as asked.
    fn motion_is_ready(&self, cmd: ViewCmd, vidx: ViewIdx, rect: &Rect, reply: &Reply) -> (res: bool)
        requires
            self@.scene.has_pane(vidx),
            *rect == self@.scene.tree_rect(),
            cmd is EnterVisual || cmd is MoveUp || cmd is MoveDown || cmd is MoveRight
                || cmd is MoveLeft || cmd is MoveSelectionUp || cmd is MoveSelectionDown
                || cmd is MoveSelectionRight || cmd is MoveSelectionLeft,
        ensures
            res == self@.pane_allows(cmd, vidx, *reply),
    {
        let view: TextView = *self.views.get(vidx);
        let buffer: &Buffer = self.buffers.get(view.buf);
        let len: usize = text::rope_len_chars(&buffer.buf);
        let mut v: TextView = view;
        match cmd {
            ViewCmd::EnterVisual => view.cursor < usize::MAX,
            ViewCmd::MoveUp => view.may_move_up(rect, buffer),
            ViewCmd::MoveDown => view.may_move_down(rect, buffer),
            ViewCmd::MoveSelectionUp => view.may_move_up(rect, buffer) && len < usize::MAX && (
            view.selection.is_some() || !v.raise(buffer)),
            ViewCmd::MoveSelectionDown => view.may_move_down(rect, buffer) && len < usize::MAX && (
            view.selection.is_some() || !v.lower(buffer)),
            ViewCmd::MoveSelectionRight => view.cursor <= len && len < usize::MAX && (
            view.selection.is_some() || !v.step_right(buffer)),
            ViewCmd::MoveSelectionLeft => view.cursor <= len && (view.selection.is_some()
                || !v.step_left(buffer)),
            _ => view.cursor <= len,
        }
    }

    /// Tries whether a command of a view can be carried out.
    fn view_is_ready(&self, cmd: ViewCmd, vidx: ViewIdx, reply: &Reply) -> (res: bool)
        requires
            self@.scene.steady(),
            self@.scene.has_pane(vidx),
        ensures
            res == self@.view_ready(cmd, vidx, *reply),
    {
        let ghost s = self@.scene;
        proof {
            orderly::law_focus(s.nodes);
            assert(s.nodes.live(NodeIdx::Split(s.nodes.roots[0])));
        }
        let lidx: LeafIdx = self.nodes.follow_focus(NodeIdx::Split(SplitIdx(0)));
        let rect: Rect = self.nodes.get_leaf(lidx).rect;
        let view: TextView = *self.views.get(vidx);
        let buffer: &Buffer = self.buffers.get(view.buf);
        match cmd {
            ViewCmd::Insert(_) => edits::may_type(&view, buffer),
            ViewCmd::NewLine => edits::may_break(&view, buffer, &rect),
            ViewCmd::BackSpace => edits::may_delete(&view, buffer, &rect),
            ViewCmd::Undo => may_revert_last(&buffer.undo, buffer),
            ViewCmd::Redo => edits::may_redo(&view, buffer, &rect),
            ViewCmd::FocusUp => self.focus_is_ready(Side::Up),
            ViewCmd::FocusDown => self.focus_is_ready(Side::Down),
            ViewCmd::FocusRight => self.focus_is_ready(Side::Right),
            ViewCmd::FocusLeft => self.focus_is_ready(Side::Left),
            ViewCmd::EnterCmd => overlay_has_room(&self.nodes, Ghost(s)),
            ViewCmd::Yank => selection_is_in(&view, buffer),
            ViewCmd::YankClipboard => view.selection.is_none() || (selection_is_in(&view, buffer)
                && matches!(reply, Reply::Done(Ok(_)))),
            ViewCmd::Paste => match &self.clipboard {
                Some(text) => may_paste(&view, text),
                None => true,
            },
            ViewCmd::PasteClipboard => match reply {
                Reply::Clipboard(Some(text)) => may_paste(&view, text),
                _ => true,
            },
            ViewCmd::EnterNormal => true,
            ViewCmd::EnterInsert => true,
            ViewCmd::Noop => true,
            _ => self.motion_is_ready(cmd, vidx, &rect, reply),
        }
    }

    // ---- the keys of the command line and of the completion list

    /// Whether there is something to complete once a character is typed.
    fn is_completed_by(&self, c: char, reply: &Reply) -> (res: bool)
        requires
            self@.scene.line.can_edit(),
        ensures
            res == self@.scene.with_line(self@.scene.line.inserted(c)).has_completions(
                auto_complete::listed_texts(requests::names_of(*reply)),
            ),
    {
        let mut line: CmdLine = self.cmd_line.copy();
        line.insert(c);
        match reply {
            Reply::Names(names) => AutoComplete::new(&line, &self.buffers, names).is_some(),
            _ => AutoComplete::new(&line, &self.buffers, &None).is_some(),
        }
    }

    /// Tries whether an action of the command line can be carried out.
    fn line_is_ready(&self, action: Action, reply: &Reply) -> (res: bool)
        requires
            self@.scene.steady(),
            self.buffers.wf(),
        ensures
            res == self@.scene.line_ready(action, *reply),
    {
        let ghost s = self@.scene;
        let l: &CmdLine = &self.cmd_line;
        if !is_anchored(l, &self.nodes, &self.views, Ghost(s)) {
            return false;
        }
        match action {
            Action::Exec => run_is_ready(
                l,
                &self.nodes,
                &self.views,
                &self.buffers,
                reply,
                Ghost(s),
            ),
            Action::Insert(c) => l.may_edit() && (overlay_has_room(&self.nodes, Ghost(s))
                || !self.is_completed_by(c, reply)),
            Action::BackSpace => l.may_delete(),
            Action::YankClipboard => l.may_yank() && (l.selection.is_none() || matches!(
                reply,
                Reply::Done(_)
            )),
            Action::PasteClipboard => match reply {
                Reply::Clipboard(Some(text)) => {
                    let joined: String = cmd_line::join_lines(text.as_str());
                    joined.as_str().is_empty() || l.may_edit()
                },
                _ => true,
            },
            Action::MoveSelectionRight => (l.is_at_end() || l.is_on_char()) && l.may_stretch(),
            Action::MoveRight => l.is_at_end() || l.is_on_char(),
            Action::EnterVisual => l.is_at_end() || l.is_on_char(),
            _ => true,
        }
    }

    fn list_is_open(&self) -> (res: bool)
        requires
            self@.scene.steady(),
        ensures
            res == self@.scene.list_is_open(),
    {
        let ghost s = self@.scene;
        assert(s.nodes.live(NodeIdx::Split(s.nodes.roots[2])));
        let root: SplitIdx = self.nodes.get_root(ROOT_OVERLAY);
        self.nodes.position(root, NodeIdx::Leaf(self.focus)).is_some()
    }

    /// Whether a key of the list leaves nothing to complete the line to.
    fn closes_list(&self, action: ListAction, ac: &AutoComplete, reply: &Reply) -> (res: bool)
        requires
            action is BackSpace || action is Insert,
            self@.scene.line.can_edit(),
        ensures
            res == self@.scene.line_edited(action).closes_after(
                action,
                self@.scene.list_edited(action, ac@),
                *reply,
            ),
    {
        let mut line: CmdLine = self.cmd_line.copy();
        let mut list: AutoComplete = list_cmds::copy_list(ac);
        match action {
            ListAction::BackSpace => {
                line.backspace();
                list.selected = None;
            },
            ListAction::Insert(c) => line.insert(c),
            _ => {},
        }
        assert(list@ =~= self@.scene.list_edited(action, ac@));
        let refreshed: Result<(), ()> = match reply {
            Reply::Names(names) => list.refresh_filtered_and_progress(
                &line,
                &self.buffers,
                names,
            ),
            _ => list.refresh_filtered_and_progress(&line, &self.buffers, &None),
        };
        match action {
            ListAction::BackSpace => list.filtered.len() == 0,
            _ => refreshed.is_err(),
        }
    }

    /// Tries whether the line can be carried out after the list is closed.
    fn closed_run_is_ready(&self, reply: &Reply) -> (res: bool)
        requires
            self@.scene.steady(),
            self@.scene.spacious(),
            self@.scene.list_is_open(),
            self.buffers.wf(),
        ensures
            res == self@.scene.without_list().run_ready(*reply),
    {
        let ghost s = self@.scene;
        proof {
            steady::lemma_without_list(s);
            assert(s.nodes.live(NodeIdx::Split(s.nodes.roots[2])));
        }
        let root: SplitIdx = self.nodes.get_root(ROOT_OVERLAY);
        let mut nodes: Nodes = self.nodes.copy();
        let mut views: Views = self.views.copy();
        let mut focus: LeafIdx = self.focus;
        nodes.remove_child(root, &mut views, &mut focus, NodeIdx::Leaf(self.focus));
        run_is_ready(
            &self.cmd_line,
            &nodes,
            &views,
            &self.buffers,
            reply,
            Ghost(s.without_list()),
        )
    }

    /// Tries whether the selection of the list can move as asked.
    fn list_step_is_ready(&self, action: ListAction, ac: &AutoComplete, reply: &Reply) -> (res: bool)
        requires
            action is Next || action is Prev || action is NextCol || action is PrevCol,
            self@.scene.focus.0 < self@.scene.nodes.leaves.len(),
        ensures
            res == self@.scene.list_allows(action, ac@, *reply),
    {
        let height: u16 = self.nodes.get_leaf(self.focus).rect.h;
        if !self.cmd_line.is_on_char() {
            return false;
        }
        let mut list: AutoComplete = list_cmds::copy_list(ac);
        match action {
            ListAction::Next => {
                if list.selected == Some(usize::MAX) {
                    return false;
                }
                list.select_next();
            },
            ListAction::Prev => list.select_prev(),
            ListAction::NextCol => {
                let can: bool = match list.selected {
                    Some(s) => (s > 0 || height > 0) && s <= usize::MAX - height as usize
                        && list.filtered.len() > 0,
                    None => height >= 1,
                };
                if !can {
                    return false;
                }
                list.select_next_col(height);
            },
            _ => {
                if list.selected.is_some() && height < 1 {
                    return false;
                }
                list.select_prev_col(height);
            },
        }
        match list.selected {
            Some(i) => i < list.filtered.len(),
            None => true,
        }
    }

    /// Tries whether an action of the completion list can be carried out.
    fn list_is_ready(&self, action: ListAction, ac: &AutoComplete, reply: &Reply) -> (res: bool)
        requires
            self@.scene.steady(),
            self@.scene.spacious(),
            self.buffers.wf(),
        ensures
            res == self@.scene.list_ready(action, ac@, *reply),
    {
        match action {
            ListAction::Noop => true,
            ListAction::Quit => self.list_is_open(),
            ListAction::Exec => self.list_is_open() && self.closed_run_is_ready(reply),
            ListAction::BackSpace => self.cmd_line.may_edit() && (self.list_is_open()
                || !self.closes_list(action, ac, reply)),
            ListAction::Insert(_) => self.cmd_line.may_edit() && (self.list_is_open()
                || !self.closes_list(action, ac, reply)),
            _ => self.list_step_is_ready(action, ac, reply),
        }
    }

    // ---- all keys

    /// Tries whether a key can be carried out with what was told.
    pub fn is_ready(&self, key: KeyEvent, reply: &Reply) -> (res: bool)
        requires
            self@.scene.steady(),
            self.buffers.wf(),
        ensures
            res == (self@.scene.spacious() && self@.allows(key, *reply)),
    {
        let ghost s = self@.scene;
        if !self.is_spacious() {
            return false;
        }
        proof {
            ready::law_ready(self@, key, *reply);
            let _ = s.nodes.leaves[s.focus.0 as int];
        }
        match &self.nodes.get_leaf(self.focus).comp {
            Component::View(v) => {
                assert(s.nodes.leaves[s.focus.0 as int].comp == ComponentView::View(*v));
                proof {
                    let _ = s.views[v.0 as int];
                }
                let cmd: ViewCmd = view_cmds::key_to_cmd(key, self.views.get(*v).mode);
                self.view_is_ready(cmd, *v, reply)
            },
            Component::CmdLine(_) => {
                let action: Action = line_cmds::key_to_action(key, self.cmd_line.mode);
                self.line_is_ready(action, reply)
            },
            Component::AutoComplete(ac) => {
                let action: ListAction = list_cmds::key_to_list_action(key);
                self.list_is_ready(action, ac, reply)
            },
            Component::BufferList => true,
        }
    }

    fn may_ask_to_run(&self) -> (res: bool)
        ensures
            res == self@.scene.can_ask_to_run(),
    {
        let v: ViewIdx = self.cmd_line.last_view.1;
        v.0 < self.views.0.len() && self.views.get(v).buf.idx < self.buffers.len()
    }

    /// Tries whether it can be told what a key asks for.
    pub fn may_ask(&self, key: KeyEvent) -> (res: bool)
        requires
            self@.scene.steady(),
        ensures
            res == self@.can_ask(key),
    {
        let ghost s = self@.scene;
        match &self.nodes.get_leaf(self.focus).comp {
            Component::View(v) => {
                assert(s.nodes.leaves[s.focus.0 as int].comp == ComponentView::View(*v));
                proof {
                    let _ = s.views[v.0 as int];
                }
                let view: &TextView = self.views.get(*v);
                match view_cmds::key_to_cmd(key, view.mode) {
                    ViewCmd::YankClipboard => selection_is_in(view, self.buffers.get(view.buf)),
                    _ => true,
                }
            },
            Component::CmdLine(_) => match line_cmds::key_to_action(key, self.cmd_line.mode) {
                Action::Exec => self.may_ask_to_run(),
                Action::Insert(_) => self.cmd_line.may_edit(),
                Action::YankClipboard => self.cmd_line.may_yank(),
                _ => true,
            },
            Component::AutoComplete(_) => match list_cmds::key_to_list_action(key) {
                ListAction::Exec => self.may_ask_to_run(),
                ListAction::BackSpace => self.cmd_line.may_edit(),
                ListAction::Insert(_) => self.cmd_line.may_edit(),
                _ => true,
            },
            Component::BufferList => true,
        }
    }
}

} // verus!
