//! What holds of the records of edits in all buffers, whatever is typed.
use vstd::prelude::*;
use crate::auto_complete::AutoCompleteView;
use crate::buffers::{BufferIdx, BufferView, BuffersView, Found};
use crate::commands;
use crate::commands::{ArgValView, Cmd, CmdValView};
use crate::editor::EditorView;
use crate::history;
use crate::line_cmds::Action;
use crate::list_cmds;
use crate::list_cmds::ListAction;
use crate::requests::Reply;
use crate::scene;
use crate::scene::Scene;
use crate::start::StartFile;
use crate::steady;
use crate::strings;
use crate::terminal::KeyEvent;
use crate::tree::ComponentView;
use crate::view_cmds::ViewCmd;
use crate::views::ViewIdx;

verus! {

impl BuffersView {
    /// The records of all buffers lead somewhere from their texts.
    pub open spec fn records_sound(self) -> bool {
        forall|i: int| 0 <= i < self.data.len() ==> history::sound(#[trigger] self.data[i])
    }
}

impl Scene {
    /// A buffer without text gets the text of its file, though it has edits:
    /// all of its text was taken out, and not written.
    pub open spec fn reloads_edited(self, cmd: CmdValView, reply: Reply) -> bool {
        match (cmd.cmd, cmd.argument, reply) {
            (
                Cmd::BufferSwitch,
                Some(ArgValView::BufferIndex(i)),
                Reply::Reloaded(Some(Ok(text))),
            ) => {
                let b = self.buffers.data[i as int];
                &&& i < self.buffers.data.len()
                &&& text@.len() > 0
                &&& b.text.len() == 0
                &&& b.undo.len() > 0 || b.redo.len() > 0
            },
            _ => false,
        }
    }

    pub open spec fn run_reloads_edited(self, reply: Reply) -> bool {
        commands::read_line(self.line.input) matches Ok(cmd) && self.reloads_edited(cmd, reply)
    }
}

impl EditorView {
    /// The key records an edit that it does not make, or changes a text
    /// without a record of it.
    pub open spec fn spoils_records(self, key: KeyEvent, reply: Reply) -> bool {
        match self.comp() {
            ComponentView::View(v) => match self.view_cmd(key, v) {
                ViewCmd::Paste => self.clipboard matches Some(text) && text.len() > 0,
                ViewCmd::PasteClipboard => {
                    &&& reply matches Reply::Clipboard(Some(text)) && text@.len() > 0
                    &&& self.scene.buffer_of(v).redo.len() > 0
                },
                _ => false,
            },
            ComponentView::CmdLine => self.line_action(key) is Exec
                && self.scene.run_reloads_edited(reply),
            ComponentView::AutoComplete(_) => list_cmds::list_action_of_key(key) is Exec
                && self.scene.run_reloads_edited(reply),
            ComponentView::BufferList => false,
        }
    }
}

proof fn lemma_with(b: BuffersView, i: BufferIdx, v: BufferView)
    requires
        b.records_sound(),
        b.has(i),
        history::sound(v),
    ensures
        b.with(i, v).records_sound(),
{
    let g = b.with(i, v);
    assert forall|k: int| 0 <= k < g.data.len() implies history::sound(#[trigger] g.data[k]) by {
        let _ = b.data[k];
    }
}

proof fn lemma_pushed(b: BuffersView, v: BufferView, resolved: Option<Seq<char>>)
    requires
        b.records_sound(),
        b.sound(),
        v.undo.len() == 0,
        v.redo.len() == 0,
    ensures
        b.pushed(v, resolved).records_sound(),
{
    let g = b.pushed(v, resolved);
    if b.free.len() > 0 {
        assert(b.has(b.free[0]));
    }
    assert forall|k: int| 0 <= k < g.data.len() implies history::sound(#[trigger] g.data[k]) by {
        if k < b.data.len() {
            let _ = b.data[k];
        }
    }
}

/// A command of a view keeps the records sound.
proof fn lemma_view_acted(e: EditorView, cmd: ViewCmd, v: ViewIdx, reply: Reply)
    requires
        e.scene.buffers.records_sound(),
        e.view_allows(cmd, v, reply),
        cmd is Paste ==> (e.clipboard matches Some(text) ==> text.len() == 0),
        cmd is PasteClipboard ==> (reply matches Reply::Clipboard(Some(text)) ==> text@.len() == 0
            || e.scene.buffer_of(v).redo.len() == 0),
    ensures
        e.view_acted(cmd, v, reply).scene.buffers.records_sound(),
{
    let s = e.scene;
    let p = s.pane(v);
    let rect = s.tree_rect();
    let idx = s.view_at(v).buf;
    assert(history::sound(s.buffers.data[idx.idx as int]));
    match cmd {
        ViewCmd::Insert(c) => {
            history::law_typed(p, c);
            lemma_with(s.buffers, idx, p.typed(c).buffer);
        },
        ViewCmd::NewLine => {
            history::law_typed(p, '\n');
            lemma_with(s.buffers, idx, p.line_broken(rect).buffer);
        },
        ViewCmd::BackSpace => {
            history::law_deleted(p, rect);
            lemma_with(s.buffers, idx, p.deleted(rect).buffer);
        },
        ViewCmd::Undo => {
            history::law_undone(p);
            lemma_with(s.buffers, idx, p.undone().buffer);
        },
        ViewCmd::Redo => {
            history::law_redone(p, rect);
            lemma_with(s.buffers, idx, p.redone(rect).buffer);
        },
        ViewCmd::Paste => {
            if let Some(text) = e.clipboard {
                history::law_nothing_pasted(p, text);
                lemma_with(s.buffers, idx, p.pasted(text).buffer);
            }
        },
        ViewCmd::PasteClipboard => {
            if let Reply::Clipboard(Some(text)) = reply {
                if text@.len() == 0 {
                    history::law_nothing_pasted(p, text@);
                } else {
                    history::law_clipboard_pasted(p, text@);
                }
                lemma_with(s.buffers, idx, p.clipboard_pasted(text@).buffer);
            }
        },
        _ => {},
    }
}

proof fn lemma_executed(s: Scene, cmd: CmdValView, reply: Reply)
    requires
        s.steady(),
        s.buffers.records_sound(),
        s.can_execute(cmd, reply),
        !s.reloads_edited(cmd, reply),
    ensures
        s.executed(cmd, reply).0.buffers.records_sound(),
{
    let b = s.buffers;
    let own = s.buffer_idx();
    let _ = s.views[s.view_idx().0 as int];
    assert(history::sound(b.data[own.idx as int]));
    match cmd.cmd {
        Cmd::BufferClose => {
            let target = s.close_target(cmd.argument);
            if s.close_stop(target, cmd.force) is None {
                let v = b.closed(target).at(target);
                lemma_with(b, target, v);
                assert(b.closed(target).data =~= b.with(target, v).data);
            }
        },
        Cmd::Open => {
            lemma_pushed(b, BufferView::loaded(None, 0, Found::Missing), None);
            if let Reply::File(f) = reply {
                if let Ok(found) = f.content {
                    lemma_pushed(
                        b,
                        BufferView::loaded(Some(f.path@), 0, found),
                        strings::option_text(f.resolved),
                    );
                }
            }
        },
        Cmd::BufferSwitch => {
            if let Some(ArgValView::BufferIndex(i)) = cmd.argument {
                let idx = BufferIdx { idx: i };
                if b.has(idx) {
                    let left = s.left().buffers.at(own);
                    lemma_with(b, own, left);
                    assert(s.left().buffers == b.with(own, left));
                    assert(history::sound(s.left().buffers.data[i as int]));
                    let c = scene::remembered(s.left().reloaded_buffer(idx, reply));
                    assert(c.text.len() == 0 ==> c.text =~= s.left().buffers.at(idx).text);
                    lemma_with(s.left().buffers, idx, c);
                }
            }
        },
        Cmd::Save => {
            let clean = BufferView { undo: Seq::empty(), redo: Seq::empty(), ..b.at(own) };
            lemma_with(b, own, clean);
        },
        _ => {},
    }
}

proof fn lemma_ran(s: Scene, reply: Reply)
    requires
        s.steady(),
        s.buffers.records_sound(),
        s.can_run(reply),
        !s.run_reloads_edited(reply),
    ensures
        s.ran(reply).0.buffers.records_sound(),
{
    if let Ok(cmd) = commands::read_line(s.line.input) {
        lemma_executed(s, cmd, reply);
    }
}

proof fn lemma_line_acted(s: Scene, action: Action, reply: Reply)
    requires
        s.steady(),
        s.buffers.records_sound(),
        s.line_allows(action, reply),
        action is Exec ==> !s.run_reloads_edited(reply),
    ensures
        s.line_acted(action, reply).0.buffers.records_sound(),
{
    if action is Exec {
        lemma_ran(s, reply);
    } else {
        assert(s.line_acted(action, reply).0.buffers == s.buffers);
    }
}

proof fn lemma_list_acted(s: Scene, action: ListAction, ac: AutoCompleteView, reply: Reply)
    requires
        s.steady(),
        s.spacious(),
        s.buffers.records_sound(),
        s.list_allows(action, ac, reply),
        action is Exec ==> !s.run_reloads_edited(reply),
    ensures
        s.list_acted(action, ac, reply).0.buffers.records_sound(),
{
    if action is Exec {
        steady::lemma_without_list(s);
        lemma_ran(s.without_list(), reply);
    } else {
        assert(s.list_acted(action, ac, reply).0.buffers == s.buffers);
    }
}

/// Whatever key is typed, but for those that spoil them, the records of all
/// buffers stay sound: every edit can be taken back, and made again.
pub proof fn law_records_kept(e: EditorView, key: KeyEvent, reply: Reply)
    requires
        e.scene.steady(),
        e.scene.spacious(),
        e.allows(key, reply),
        e.scene.buffers.records_sound(),
        !e.spoils_records(key, reply),
    ensures
        e.stepped(key, reply).0.scene.buffers.records_sound(),
{
    let s = e.scene;
    match e.comp() {
        ComponentView::View(v) => lemma_view_acted(e, e.view_cmd(key, v), v, reply),
        ComponentView::CmdLine => lemma_line_acted(s, e.line_action(key), reply),
        ComponentView::AutoComplete(ac) => lemma_list_acted(
            s,
            list_cmds::list_action_of_key(key),
            ac,
            reply,
        ),
        ComponentView::BufferList => {},
    }
}

/// The records of an editor that starts are sound.
pub proof fn law_records_started(
    width: u16,
    height: u16,
    cwd: Seq<char>,
    file: Option<StartFile>,
)
    ensures
        EditorView::started(width, height, cwd, file).scene.buffers.records_sound(),
{
}

} // verus!
