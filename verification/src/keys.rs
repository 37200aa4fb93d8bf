//! What keys come to that are pressed one after the other in a view.
use vstd::prelude::*;
use crate::buffers::EditView;
use crate::edits;
use crate::edits::Pane;
use crate::editor::EditorView;
use crate::history;
use crate::orderly;
use crate::requests::Reply;
use crate::terminal::{KeyCode, KeyEvent};
use crate::tree::ComponentView;
use crate::view_cmds::ViewCmd;
use crate::views::{Mode, TextView, ViewIdx};

verus! {

impl EditorView {
    /// The focus is on view `v`, and this is the view with its buffer.
    pub open spec fn faces(self, v: ViewIdx, p: Pane) -> bool {
        let s = self.scene;
        &&& s.has_tree_focus()
        &&& s.focus.0 < s.nodes.leaves.len()
        &&& self.comp() == ComponentView::View(v)
        &&& s.has_pane(v)
        &&& s.pane(v) == p
    }
}

proof fn lemma_steady_faces(e: EditorView, v: ViewIdx)
    requires
        e.scene.steady(),
        e.comp() == ComponentView::View(v),
    ensures
        e.faces(v, e.scene.pane(v)),
{
    let s = e.scene;
    orderly::law_focus(s.nodes);
    assert(s.nodes.leaves[s.focus.0 as int].comp == ComponentView::View(v));
    let _ = s.views[v.0 as int];
}

proof fn lemma_with_pane(e: EditorView, v: ViewIdx, p: Pane, q: Pane)
    requires
        e.faces(v, p),
        q.view.buf == p.view.buf,
    ensures
        e.with_pane(v, q).faces(v, q),
{
    let s = e.scene.with_pane(v, q);
    assert(s.views[v.0 as int] == q.view);
    assert(s.buffers.data[q.view.buf.idx as int] == q.buffer);
}

/// A key can be carried out, nothing stops it, and it leaves the tree and the
/// focus alone.
pub open spec fn at_once(e: EditorView, key: KeyEvent, reply: Reply) -> bool {
    &&& e.allows(key, reply)
    &&& e.stepped(key, reply).1 is None
    &&& e.stepped(key, reply).0.scene.nodes == e.scene.nodes
    &&& e.stepped(key, reply).0.scene.focus == e.scene.focus
}

proof fn lemma_type(e: EditorView, v: ViewIdx, p: Pane, c: char, key: KeyEvent, reply: Reply)
    requires
        e.faces(v, p),
        p.view.mode is Insert,
        p.can_type(),
        key.code == KeyCode::Char(c),
    ensures
        at_once(e, key, reply),
        e.stepped(key, reply).0.faces(v, p.typed(c)),
{
    assert(e.view_cmd(key, v) == ViewCmd::Insert(c));
    lemma_with_pane(e, v, p, p.typed(c));
}

proof fn lemma_leave(e: EditorView, v: ViewIdx, p: Pane, key: KeyEvent, reply: Reply)
    requires
        e.faces(v, p),
        p.view.mode is Insert,
        key.code is Esc,
    ensures
        at_once(e, key, reply),
        e.stepped(key, reply).0.faces(
            v,
            p.with_view(TextView { mode: Mode::Normal, selection: None, ..p.view }),
        ),
{
    assert(e.view_cmd(key, v) is EnterNormal);
    let q = p.with_view(TextView { mode: Mode::Normal, selection: None, ..p.view });
    let s = e.stepped(key, reply).0.scene;
    assert(s.views[v.0 as int] == q.view);
}

proof fn lemma_undo(e: EditorView, v: ViewIdx, p: Pane, key: KeyEvent, reply: Reply)
    requires
        e.faces(v, p),
        p.view.mode is Normal,
        p.can_undo(),
        p.undo_stop() is None,
        key.code == KeyCode::Char('u'),
    ensures
        at_once(e, key, reply),
        e.stepped(key, reply).0.faces(v, p.undone()),
{
    assert(e.view_cmd(key, v) is Undo);
    lemma_with_pane(e, v, p, p.undone());
}

proof fn lemma_redo(e: EditorView, v: ViewIdx, p: Pane, key: KeyEvent, reply: Reply)
    requires
        e.faces(v, p),
        p.view.mode is Normal,
        p.can_redo(e.scene.tree_rect()),
        p.redo_stop() is None,
        key.code == KeyCode::Char('U'),
    ensures
        at_once(e, key, reply),
        e.stepped(key, reply).0.faces(v, p.redone(e.scene.tree_rect())),
{
    assert(e.view_cmd(key, v) is Redo);
    lemma_with_pane(e, v, p, p.redone(e.scene.tree_rect()));
}

/// A character typed into a buffer without edits, insert mode left, and the
/// edit taken back: the text and the cursor are as before.
pub proof fn law_type_leave_undo(
    e: EditorView,
    v: ViewIdx,
    c: char,
    typed: KeyEvent,
    leave: KeyEvent,
    undo: KeyEvent,
    reply: Reply,
)
    requires
        e.scene.steady(),
        e.comp() == ComponentView::View(v),
        e.scene.view_at(v).mode is Insert,
        e.scene.buffer_of(v).undo.len() == 0,
        e.scene.view_at(v).cursor <= e.scene.buffer_of(v).text.len(),
        e.scene.view_at(v).cursor < usize::MAX,
        typed.code == KeyCode::Char(c),
        leave.code is Esc,
        undo.code == KeyCode::Char('u'),
    ensures
        ({
            let one = e.stepped(typed, reply);
            let two = one.0.stepped(leave, reply);
            let three = two.0.stepped(undo, reply);
            let before = e.scene.pane(v);
            let after = three.0.scene.pane(v);
            &&& at_once(e, typed, reply)
            &&& at_once(one.0, leave, reply)
            &&& at_once(two.0, undo, reply)
            &&& after.buffer.text == before.buffer.text
            &&& after.buffer.undo == Seq::<EditView>::empty()
            &&& after.buffer.redo == seq![
                EditView::Delete { idx: before.view.cursor as int, text: seq![c] },
            ]
            &&& after.view.cursor == before.view.cursor
            &&& after.view.mode is Normal
            &&& after.view.selection is None
        }),
{
    let p = e.scene.pane(v);
    let q = p.typed(c);
    let r = q.with_view(TextView { mode: Mode::Normal, selection: None, ..q.view });
    lemma_steady_faces(e, v);
    history::law_typed_undone(p, c);
    lemma_type(e, v, p, c, typed, reply);
    let a = e.stepped(typed, reply).0;
    lemma_leave(a, v, q, leave, reply);
    let b = a.stepped(leave, reply).0;
    lemma_undo(b, v, r, undo, reply);
    assert(r.undone().buffer == q.undone().buffer);
}

/// An edit taken back and made again by two keys: the buffer is as before, and
/// the cursor stands at the place of the edit.
pub proof fn law_undo_redo_keys(
    e: EditorView,
    v: ViewIdx,
    undo: KeyEvent,
    redo: KeyEvent,
    reply: Reply,
)
    requires
        e.scene.steady(),
        e.comp() == ComponentView::View(v),
        e.scene.view_at(v).mode is Normal,
        e.scene.tree_rect().w > 5,
        e.scene.buffer_of(v).undo.len() > 0,
        history::applied(e.scene.buffer_of(v).text, e.scene.buffer_of(v).undo.last()),
        e.scene.buffer_of(v).text.len() <= usize::MAX,
        undo.code == KeyCode::Char('u'),
        redo.code == KeyCode::Char('U'),
    ensures
        ({
            let one = e.stepped(undo, reply);
            let two = one.0.stepped(redo, reply);
            let before = e.scene.pane(v);
            let after = two.0.scene.pane(v);
            &&& at_once(e, undo, reply)
            &&& at_once(one.0, redo, reply)
            &&& after.buffer == before.buffer
            &&& after.view.cursor == edits::edit_at(before.buffer.undo.last())
            &&& after.view.selection is None
            &&& after.view.mode is Normal
        }),
{
    let p = e.scene.pane(v);
    lemma_steady_faces(e, v);
    history::law_undo_redo(p, e.scene.tree_rect());
    lemma_undo(e, v, p, undo, reply);
    lemma_redo(e.stepped(undo, reply).0, v, p.undone(), redo, reply);
}

} // verus!
