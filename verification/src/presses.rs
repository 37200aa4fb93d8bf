//! What each key does in a view, by the mode of the view.
use vstd::prelude::*;
use crate::edits::Pane;
use crate::editor::{EditorView, CMDLINE};
use crate::errors::EditorErrView;
use crate::requests::{Reply, RequestView};
use crate::scene::Scene;
use crate::terminal::{KeyCode, KeyEvent};
use crate::tree::{ComponentView, Side};
use crate::views::{Mode, TextView, ViewIdx};

verus! {

/// View `v` has the focus.
pub open spec fn in_view(e: EditorView, v: ViewIdx) -> bool {
    &&& e.scene.nodes.leaves[e.scene.focus.0 as int].comp == ComponentView::View(v)
    &&& v.0 < e.scene.views.len()
    &&& e.scene.views[v.0 as int].buf.idx < e.scene.buffers.data.len()
}

/// The view that has the focus, with its buffer.
pub open spec fn now(e: EditorView, v: ViewIdx) -> Pane {
    let view = e.scene.views[v.0 as int];
    Pane { view, buffer: e.scene.buffers.data[view.buf.idx as int] }
}

/// One view has changed, and nothing else.
pub open spec fn only_view(e: EditorView, t: EditorView, v: ViewIdx, u: TextView) -> bool {
    t == EditorView {
        scene: Scene { views: e.scene.views.update(v.0 as int, u), ..e.scene },
        ..e
    }
}

/// One view and its buffer have changed, and nothing else.
pub open spec fn only_pane(e: EditorView, t: EditorView, v: ViewIdx, p: Pane) -> bool {
    let s = e.scene;
    &&& t.clipboard == e.clipboard
    &&& t.scene == Scene { views: t.scene.views, buffers: t.scene.buffers, ..s }
    &&& t.scene.views == s.views.update(v.0 as int, p.view)
    &&& t.scene.buffers.data == s.buffers.data.update(s.views[v.0 as int].buf.idx as int, p.buffer)
    &&& t.scene.buffers.free == s.buffers.free
    &&& t.scene.buffers.path_map == s.buffers.path_map
}

/// The view is in normal mode and without a selection, the cursor of the
/// command line is at its start, and nothing else has changed but the
/// clipboard, which holds `kept`.
pub open spec fn calm(e: EditorView, t: EditorView, v: ViewIdx, kept: Option<Seq<char>>) -> bool {
    let s = e.scene;
    let u = TextView { mode: Mode::Normal, selection: None, ..s.views[v.0 as int] };
    &&& t.clipboard == kept
    &&& t.scene.views == s.views.update(v.0 as int, u)
    &&& t.scene.line.cursor == 0
    &&& t.scene.line.input == s.line.input
    &&& t.scene.line.mode == s.line.mode
    &&& t.scene.line.error == s.line.error
    &&& t.scene.line.selection == s.line.selection
    &&& t.scene.line.last_view == s.line.last_view
    &&& t.scene == Scene { views: t.scene.views, line: t.scene.line, ..s }
}

pub open spec fn pressed(key: KeyEvent, c: char) -> bool {
    key.code == KeyCode::Char(c)
}

/// The characters between the ends of a selection.
pub open spec fn between(t: Seq<char>, sel: (usize, usize)) -> Seq<char> {
    t.subrange(sel.0 as int, sel.1 as int)
}

// ---- normal mode

/// In normal mode h, j, k and l move the cursor left, down, up and right.
pub proof fn law_normal_moves(e: EditorView, v: ViewIdx, key: KeyEvent, reply: Reply)
    requires
        in_view(e, v),
        now(e, v).view.mode is Normal,
    ensures
        ({
            let (t, stop) = e.stepped(key, reply);
            let p = now(e, v);
            let rect = e.scene.tree_rect();
            &&& pressed(key, 'h') ==> only_view(e, t, v, p.view.moved_left(p.buffer.text))
            &&& pressed(key, 'l') ==> only_view(e, t, v, p.view.moved_right(p.buffer.text))
            &&& pressed(key, 'j') ==> only_view(e, t, v, p.view.moved_down(p.buffer.text, rect))
            &&& pressed(key, 'k') && !key.alt ==> only_view(
                e,
                t,
                v,
                p.view.moved_up(p.buffer.text, rect),
            )
            &&& pressed(key, 'h') || pressed(key, 'l') || pressed(key, 'j') || pressed(key, 'k')
                ==> stop is None
        }),
{
}

/// In normal mode d deletes, u takes an edit back and U makes it again.
pub proof fn law_normal_edits(e: EditorView, v: ViewIdx, key: KeyEvent, reply: Reply)
    requires
        in_view(e, v),
        now(e, v).view.mode is Normal,
    ensures
        ({
            let (t, stop) = e.stepped(key, reply);
            let p = now(e, v);
            let rect = e.scene.tree_rect();
            &&& pressed(key, 'd') ==> only_pane(e, t, v, p.deleted(rect)) && stop is None
            &&& pressed(key, 'u') ==> only_pane(e, t, v, p.undone()) && stop == p.undo_stop()
            &&& pressed(key, 'U') ==> only_pane(e, t, v, p.redone(rect)) && stop == p.redo_stop()
        }),
{
}

/// In normal mode p pastes what was yanked and P what the system's clipboard
/// holds, if there is anything.
pub proof fn law_normal_pastes(e: EditorView, v: ViewIdx, key: KeyEvent, reply: Reply)
    requires
        in_view(e, v),
        now(e, v).view.mode is Normal || now(e, v).view.mode is Visual,
    ensures
        ({
            let (t, stop) = e.stepped(key, reply);
            let p = now(e, v);
            &&& pressed(key, 'p') || pressed(key, 'P') ==> stop is None
            &&& pressed(key, 'p') ==> match e.clipboard {
                Some(s) => only_pane(e, t, v, p.pasted(s)),
                None => t == e,
            }
            &&& pressed(key, 'P') ==> match reply {
                Reply::Clipboard(Some(s)) => only_pane(e, t, v, p.clipboard_pasted(s@)),
                _ => t == e,
            }
            &&& pressed(key, 'P') ==> e.request(key) is ReadClipboard
            &&& pressed(key, 'p') ==> e.request(key) is Nothing
        }),
{
}

/// In normal mode i turns to insert mode without a selection, and v to visual
/// mode with the character at the cursor selected.
pub proof fn law_normal_modes(e: EditorView, v: ViewIdx, key: KeyEvent, reply: Reply)
    requires
        in_view(e, v),
        now(e, v).view.mode is Normal,
        now(e, v).view.cursor < usize::MAX,
    ensures
        ({
            let (t, stop) = e.stepped(key, reply);
            let view = now(e, v).view;
            let u = now(t, v).view;
            &&& pressed(key, 'i') || pressed(key, 'v') ==> stop is None && only_view(e, t, v, u)
                && u.cursor == view.cursor && u.prefered_x == view.prefered_x && u.off == view.off
                && u.buf == view.buf
            &&& pressed(key, 'i') ==> u.mode is Insert && u.selection is None
            &&& pressed(key, 'v') ==> {
                &&& u.mode is Visual
                &&& u.selection is Some
                &&& (u.selection->0).0 == view.cursor
                &&& (u.selection->0).1 == view.cursor + 1
            }
        }),
{
}

/// Any other key does nothing in normal mode.
pub proof fn law_normal_rest(e: EditorView, v: ViewIdx, key: KeyEvent, reply: Reply)
    requires
        in_view(e, v),
        now(e, v).view.mode is Normal,
        !pressed(key, 'h') && !pressed(key, 'j') && !pressed(key, 'k') && !pressed(key, 'l'),
        !pressed(key, 'H') && !pressed(key, 'J') && !pressed(key, 'K') && !pressed(key, 'L'),
        !pressed(key, 'd') && !pressed(key, 'u') && !pressed(key, 'U'),
        !pressed(key, 'p') && !pressed(key, 'P') && !pressed(key, 'y'),
        !pressed(key, 'i') && !pressed(key, 'v'),
    ensures
        e.stepped(key, reply) == (e, None::<EditorErrView>),
        e.request(key) is Nothing,
{
}

/// In normal mode H, J, K and L move the focus to the left, down, up and to the
/// right; in visual mode K does.
pub proof fn law_focus_keys(e: EditorView, v: ViewIdx, key: KeyEvent, reply: Reply, side: Side)
    requires
        in_view(e, v),
        now(e, v).view.mode is Normal || (now(e, v).view.mode is Visual && side is Up),
        pressed(
            key,
            match side {
                Side::Left => 'H',
                Side::Down => 'J',
                Side::Up => 'K',
                Side::Right => 'L',
            },
        ),
    ensures
        ({
            let (t, stop) = e.stepped(key, reply);
            let s = e.scene;
            &&& stop is None
            &&& t.scene.focus == s.nodes.refocused_leaf(s.focus, side)
            &&& t.scene.nodes == s.nodes.refocused(s.focus, side)
            &&& t.clipboard == e.clipboard
            &&& t.scene == Scene { focus: t.scene.focus, nodes: t.scene.nodes, ..s }
        }),
{
}

/// k together with alt enters the command line, which is then empty and
/// remembers the view.
pub proof fn law_enter_line(e: EditorView, v: ViewIdx, key: KeyEvent, reply: Reply)
    requires
        in_view(e, v),
        now(e, v).view.mode is Normal || now(e, v).view.mode is Visual,
        pressed(key, 'k'),
        key.alt,
    ensures
        ({
            let (t, stop) = e.stepped(key, reply);
            &&& stop is None
            &&& t.scene.line.input.len() == 0
            &&& t.scene.line.cursor == 0
            &&& t.scene.line.mode is Insert
            &&& t.scene.line.last_view == (e.scene.tree_focus(), v)
            &&& t.scene.views == e.scene.views
            &&& t.scene.buffers == e.scene.buffers
            &&& t.scene.cwd == e.scene.cwd
            &&& t.clipboard == e.clipboard
            &&& t.scene.focus.0 == CMDLINE || t.scene.focus == e.scene.nodes.new_leaf_idx()
        }),
{
}

// ---- insert mode

/// In insert mode a character is typed in, Enter breaks the line, Backspace
/// takes a character out, and Esc goes back to normal mode. Nothing else does
/// anything.
pub proof fn law_insert_keys(e: EditorView, v: ViewIdx, key: KeyEvent, reply: Reply)
    requires
        in_view(e, v),
        now(e, v).view.mode is Insert,
    ensures
        ({
            let (t, stop) = e.stepped(key, reply);
            let p = now(e, v);
            let rect = e.scene.tree_rect();
            &&& stop is None
            &&& e.request(key) is Nothing
            &&& match key.code {
                KeyCode::Char(c) => only_pane(e, t, v, p.typed(c)),
                KeyCode::Enter => only_pane(e, t, v, p.line_broken(rect)),
                KeyCode::Backspace => only_pane(e, t, v, p.deleted(rect)),
                KeyCode::Esc => calm(e, t, v, e.clipboard),
                _ => t == e,
            }
        }),
{
}

// ---- visual mode

/// In visual mode h, j, k and l move the cursor with one end of the selection.
pub proof fn law_visual_moves(e: EditorView, v: ViewIdx, key: KeyEvent, reply: Reply)
    requires
        in_view(e, v),
        now(e, v).view.mode is Visual,
    ensures
        ({
            let (t, stop) = e.stepped(key, reply);
            let p = now(e, v);
            let rect = e.scene.tree_rect();
            &&& pressed(key, 'h') ==> only_view(
                e,
                t,
                v,
                p.view.selection_moved_left(p.buffer.text),
            )
            &&& pressed(key, 'l') ==> only_view(
                e,
                t,
                v,
                p.view.selection_moved_right(p.buffer.text),
            )
            &&& pressed(key, 'j') ==> only_view(
                e,
                t,
                v,
                p.view.selection_moved_down(p.buffer.text, rect),
            )
            &&& pressed(key, 'k') && !key.alt ==> only_view(
                e,
                t,
                v,
                p.view.selection_moved_up(p.buffer.text, rect),
            )
            &&& pressed(key, 'h') || pressed(key, 'l') || pressed(key, 'j') || pressed(key, 'k')
                ==> stop is None
        }),
{
}

/// In visual mode d deletes what is selected, i turns to insert mode, and Esc
/// back to normal mode; both forget the selection.
pub proof fn law_visual_leaves(e: EditorView, v: ViewIdx, key: KeyEvent, reply: Reply)
    requires
        in_view(e, v),
        now(e, v).view.mode is Visual,
    ensures
        ({
            let (t, stop) = e.stepped(key, reply);
            let p = now(e, v);
            &&& pressed(key, 'd') || pressed(key, 'i') || key.code is Esc ==> stop is None
            &&& pressed(key, 'd') ==> only_pane(e, t, v, p.deleted(e.scene.tree_rect()))
            &&& pressed(key, 'i') ==> only_view(
                e,
                t,
                v,
                TextView { mode: Mode::Insert, selection: None, ..p.view },
            )
            &&& key.code is Esc ==> calm(e, t, v, e.clipboard)
        }),
{
}

/// y keeps what is selected and goes back to normal mode; without a selection
/// it does nothing. The text stays.
pub proof fn law_yank_keys(e: EditorView, v: ViewIdx, key: KeyEvent, reply: Reply)
    requires
        in_view(e, v),
        now(e, v).view.mode is Normal || now(e, v).view.mode is Visual,
        pressed(key, 'y'),
        now(e, v).view.selection matches Some(sel) ==> sel.0 <= sel.1
            && sel.1 <= now(e, v).buffer.text.len(),
    ensures
        ({
            let (t, stop) = e.stepped(key, reply);
            &&& stop is None
            &&& e.request(key) is Nothing
            &&& match now(e, v).view.selection {
                Some(sel) => calm(e, t, v, Some(between(now(e, v).buffer.text, sel))),
                None => t == e,
            }
        }),
{
}

/// In visual mode Y gives what is selected to the system's clipboard, without
/// the line break at its end, and goes back to normal mode. What was yanked
/// before stays.
pub proof fn law_yank_out(e: EditorView, v: ViewIdx, key: KeyEvent, reply: Reply)
    requires
        in_view(e, v),
        now(e, v).view.mode is Visual,
        pressed(key, 'Y'),
        now(e, v).view.selection matches Some(sel) ==> sel.0 <= sel.1
            && sel.1 <= now(e, v).buffer.text.len(),
    ensures
        ({
            let (t, stop) = e.stepped(key, reply);
            &&& stop is None
            &&& match now(e, v).view.selection {
                Some(sel) => {
                    let s = between(now(e, v).buffer.text, sel);
                    &&& calm(e, t, v, e.clipboard)
                    &&& e.request(key) is WriteClipboard
                    &&& s == e.request(key)->WriteClipboard_0 || s
                        == e.request(key)->WriteClipboard_0.push('\n')
                    &&& s.len() > 0 && s.last() == '\n' ==> e.request(key)->WriteClipboard_0.len()
                        == s.len() - 1
                },
                None => t == e && e.request(key) is Nothing,
            }
        }),
{
    if now(e, v).view.selection is Some {
        let s = between(now(e, v).buffer.text, now(e, v).view.selection->0);
        if s.len() > 0 {
            assert(s =~= s.drop_last().push(s.last()));
        }
    }
}

/// Any other key does nothing in visual mode.
pub proof fn law_visual_rest(e: EditorView, v: ViewIdx, key: KeyEvent, reply: Reply)
    requires
        in_view(e, v),
        now(e, v).view.mode is Visual,
        !(key.code is Esc),
        !pressed(key, 'h') && !pressed(key, 'j') && !pressed(key, 'k') && !pressed(key, 'l'),
        !pressed(key, 'K') && !pressed(key, 'd') && !pressed(key, 'i'),
        !pressed(key, 'p') && !pressed(key, 'P') && !pressed(key, 'y') && !pressed(key, 'Y'),
    ensures
        e.stepped(key, reply) == (e, None::<EditorErrView>),
        e.request(key) is Nothing,
{
}

/// What a view asks for does not depend on the key unless that is P or Y.
pub proof fn law_view_asks(e: EditorView, v: ViewIdx, key: KeyEvent)
    requires
        in_view(e, v),
        !pressed(key, 'P'),
        !pressed(key, 'Y'),
    ensures
        e.request(key) == RequestView::Nothing,
{
}

/// While the list of buffers has the focus, keys do nothing.
pub proof fn law_buffer_list_keys(e: EditorView, key: KeyEvent, reply: Reply)
    requires
        e.scene.nodes.leaves[e.scene.focus.0 as int].comp is BufferList,
    ensures
        e.stepped(key, reply) == (e, None::<EditorErrView>),
        e.request(key) is Nothing,
{
}

} // verus!
