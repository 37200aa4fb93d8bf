//! What holds of the editor from its start on, whatever is typed.
use vstd::prelude::*;
use crate::auto_complete;
use crate::auto_complete::AutoCompleteView;
use crate::buffers;
use crate::buffers::{BufferIdx, BufferView, BuffersView, Found, SCRATCH};
use crate::cmd_line::CmdLineView;
use crate::commands;
use crate::commands::{ArgValView, Cmd, CmdValView};
use crate::edits::Pane;
use crate::editor::{EditorView, CMDLINE};
use crate::errors::EditorErrView;
use crate::layout::{AnchorsView, ConstraintsView, Direction, Rect};
use crate::line_cmds::Action;
use crate::list_cmds;
use crate::list_cmds::ListAction;
use crate::nodes;
use crate::orderly;
use crate::requests;
use crate::requests::Reply;
use crate::scene;
use crate::scene::Scene;
use crate::strings;
use crate::tame;
use crate::terminal::KeyEvent;
use crate::tree::{ComponentView, LeafIdx, NodeIdx, NodesView, Side, SplitIdx};
use crate::tree_growth;
use crate::tree_layout;
use crate::tree_pruning;
use crate::view_cmds;
use crate::view_cmds::ViewCmd;
use crate::views;
use crate::views::{TextView, ViewIdx};

verus! {

impl NodesView {
    /// The leaves show none but the first `n` views.
    pub open spec fn shows(self, n: int) -> bool {
        forall|i: int|
            0 <= i < self.leaves.len() ==> ((#[trigger] self.leaves[i]).comp matches
                ComponentView::View(v) ==> v.0 < n)
    }
}

impl BuffersView {
    /// There is a buffer, and all that is noted about buffers is about ones
    /// that are there.
    pub open spec fn sound(self) -> bool {
        &&& self.data.len() > 0
        &&& forall|k: int| 0 <= k < self.free.len() ==> self.has(#[trigger] self.free[k])
        &&& forall|p: Seq<char>|
            self.path_map.contains_key(p) ==> self.has(#[trigger] self.path_map[p])
    }
}

/// Every view shows a buffer that is there.
pub open spec fn views_sound(views: Seq<TextView>, b: BuffersView) -> bool {
    forall|i: int| 0 <= i < views.len() ==> b.has((#[trigger] views[i]).buf)
}

impl Scene {
    /// The tree can be laid out, the focus is in it, every leaf that shows a
    /// view shows one that is there, and every view a buffer that is there.
    pub open spec fn steady(self) -> bool {
        &&& self.nodes.steady()
        &&& self.nodes.leaves.len() > CMDLINE
        &&& self.focus.0 < self.nodes.leaves.len()
        &&& self.nodes.shows(self.views.len() as int)
        &&& self.buffers.sound()
        &&& views_sound(self.views, self.buffers)
    }

    /// There are numbers left for a few more nodes, views and buffers.
    pub open spec fn roomy(self) -> bool {
        &&& self.nodes.roomy()
        &&& self.views.len() + 1 < usize::MAX
        &&& self.buffers.data.len() < usize::MAX
    }

    /// There are, even after a completion list was closed.
    pub open spec fn spacious(self) -> bool {
        &&& self.nodes.splits.len() < usize::MAX
        &&& self.nodes.leaves.len() + 3 < usize::MAX
        &&& self.views.len() + 2 < usize::MAX
        &&& self.buffers.data.len() < usize::MAX
    }
}

// ---- the tree

proof fn lemma_moved_shows(a: NodesView, b: NodesView, n: int)
    requires
        a.moved(b),
        a.shows(n),
    ensures
        b.shows(n),
{
    assert forall|i: int| 0 <= i < b.leaves.len() implies ((#[trigger] b.leaves[i]).comp matches
        ComponentView::View(v) ==> v.0 < n) by {
        let _ = a.leaves[i];
    }
}

/// Where a leaf can be added, its parent has room for it.
proof fn lemma_room_for_leaf(
    m: NodesView,
    comp: ComponentView,
    parent: SplitIdx,
    c: ConstraintsView,
    a: AnchorsView,
)
    requires
        parent.0 < m.splits.len(),
        m.grown_fits(comp, parent, c, a),
    ensures
        m.split(parent).children.len() < u16::MAX,
{
    let planted = m.planted(comp, parent, c, a);
    assert(planted.division_fits(parent));
}

proof fn lemma_grown_shows(
    m: NodesView,
    comp: ComponentView,
    parent: SplitIdx,
    c: ConstraintsView,
    a: AnchorsView,
    n: int,
)
    requires
        m.linked(-1),
        parent.0 < m.splits.len(),
        m.shows(n),
        comp matches ComponentView::View(v) ==> v.0 < n,
        m.planted(comp, parent, c, a).moved(m.grown(comp, parent, c, a)),
    ensures
        m.grown(comp, parent, c, a).shows(n),
        m.leaves.len() <= m.grown(comp, parent, c, a).leaves.len() <= m.leaves.len() + 1,
        m.grown(comp, parent, c, a).splits.len() == m.splits.len(),
        m.new_leaf_idx().0 < m.grown(comp, parent, c, a).leaves.len() || m.leaves.len()
            >= usize::MAX,
{
    let planted = m.planted(comp, parent, c, a);
    if m.free_leaves.len() > 0 {
        assert(m.free_leaves[m.free_leaves.len() - 1] < m.leaves.len());
    }
    assert(planted.shows(n)) by {
        assert forall|i: int|
            0 <= i < planted.leaves.len() implies ((#[trigger] planted.leaves[i]).comp matches
            ComponentView::View(v) ==> v.0 < n) by {
            if i < m.leaves.len() {
                let _ = m.leaves[i];
            }
        }
    }
    lemma_moved_shows(planted, m.grown(comp, parent, c, a), n);
}

/// A leaf added to the tree of a steady scene.
proof fn lemma_scene_grown(
    s: Scene,
    comp: ComponentView,
    parent: SplitIdx,
    c: ConstraintsView,
    a: AnchorsView,
    n: int,
)
    requires
        s.steady(),
        s.nodes.roomy(),
        s.nodes.live(NodeIdx::Split(parent)),
        tame::tame_node(c, a),
        s.nodes.split(parent).children.len() < u16::MAX,
        n >= s.views.len(),
        comp matches ComponentView::View(v) ==> v.0 < n,
    ensures
        s.nodes.grown_fits(comp, parent, c, a),
        s.nodes.grown(comp, parent, c, a).steady(),
        s.nodes.grown(comp, parent, c, a).shows(n),
        s.nodes.leaves.len() <= s.nodes.grown(comp, parent, c, a).leaves.len()
            <= s.nodes.leaves.len() + 1,
        s.nodes.new_leaf_idx().0 < s.nodes.grown(comp, parent, c, a).leaves.len(),
{
    orderly::law_grown(s.nodes, comp, parent, c, a);
    lemma_shows_more(s.nodes, s.views.len() as int, n);
    lemma_grown_shows(s.nodes, comp, parent, c, a, n);
}

proof fn lemma_shows_more(m: NodesView, n: int, k: int)
    requires
        m.shows(n),
        n <= k,
    ensures
        m.shows(k),
{
}

proof fn lemma_removed_shows(m: NodesView, views: Seq<TextView>, parent: SplitIdx, l: LeafIdx)
    requires
        m.steady(),
        m.roomy(),
        parent.0 < m.splits.len(),
        m.split(parent).children.contains(NodeIdx::Leaf(l)),
        m.shows(views.len() as int),
        views.len() < usize::MAX,
    ensures
        ({
            let g = m.removed(views, parent, NodeIdx::Leaf(l));
            let w = m.removed_views(views, parent, NodeIdx::Leaf(l));
            &&& g.shows(w.len() as int)
            &&& m.leaves.len() <= g.leaves.len() <= m.leaves.len() + 1
            &&& g.splits.len() == m.splits.len()
            &&& w == views || w == views.push(views::fresh_view(BufferIdx { idx: SCRATCH }))
        }),
{
    let child = NodeIdx::Leaf(l);
    let rank = choose|rank: Seq<nat>| m.ranked(rank);
    orderly::law_removed(m, views, parent, l);
    let d = m.dropped(parent, child);
    tree_pruning::lemma_dropped_linked(m, rank, parent, child);
    let n = views.len() as int;
    assert(d.shows(n));
    if d.split(parent).children.len() == 0 {
        tree_pruning::lemma_pruned_linked(d, -1, rank, parent, d.splits.len());
        let t = d.trimmed(parent);
        assert(t.shows(n));
        let r = d.reflowed(views, parent);
        if t.bare() {
            let root = t.text_root();
            assert(t.live(NodeIdx::Split(t.roots[0])));
            let reset = t.with_focus(root, 0);
            let comp = ComponentView::View(ViewIdx(views.len() as usize));
            let (c, a) = (ConstraintsView::free(), AnchorsView::free());
            tree_pruning::lemma_with_focus_linked(t, -1, root, 0);
            let planted = reset.planted(comp, root, c, a);
            tree_growth::lemma_planted_linked(reset, -1, comp, root, c, a);
            tree_layout::lemma_linked_sound(planted, -1);
            tree_layout::lemma_relayout_moved(planted, root, planted.splits.len());
            assert(reset.shows(n + 1));
            lemma_grown_shows(reset, comp, root, c, a, n + 1);
            assert(r.shows(n + 1));
            tree_layout::lemma_moved_linked(planted, r, -1);
        }
        let k = if t.bare() {
            n + 1
        } else {
            n
        };
        assert(r.shows(k));
        tree_layout::lemma_linked_sound(r, -1);
        assert(r.live(NodeIdx::Split(r.roots[0])));
        tree_pruning::lemma_follow_in(r, NodeIdx::Split(r.text_root()), r.splits.len());
        let f = r.focused(NodeIdx::Split(r.text_root()))->0;
        let p = r.leaf(f).parent;
        assert(r.leaves[f.0 as int].parent.0 < r.splits.len());
        tree_layout::lemma_relayout_moved(r, p, r.splits.len());
        lemma_moved_shows(r, r.laid_out(p), k);
    } else {
        tree_layout::lemma_linked_sound(d, -1);
        tree_layout::lemma_relayout_moved(d, parent, d.splits.len());
        lemma_moved_shows(d, d.laid_out(parent), n);
    }
}

// ---- the commands of a view

/// Taking characters out does not change which buffer a view shows.
proof fn lemma_erased_keeps_buf(p: Pane, rect: Rect, n: nat)
    ensures
        p.erased_times(rect, n).view.buf == p.view.buf,
    decreases n,
{
    if n > 0 {
        lemma_erased_keeps_buf(p, rect, (n - 1) as nat);
    }
}

/// A view changed, and the buffer it shows.
proof fn lemma_with_pane(s: Scene, v: ViewIdx, p: Pane)
    requires
        s.steady(),
        v.0 < s.views.len(),
        p.view.buf == s.view_at(v).buf,
    ensures
        s.with_pane(v, p).steady(),
        s.with_view_at(v, p.view).steady(),
{
    let t = s.with_pane(v, p);
    let u = s.with_view_at(v, p.view);
    assert forall|i: int| 0 <= i < t.views.len() implies t.buffers.has(
        (#[trigger] t.views[i]).buf,
    ) by {
        let _ = s.views[i];
    }
    assert forall|i: int| 0 <= i < u.views.len() implies u.buffers.has(
        (#[trigger] u.views[i]).buf,
    ) by {
        let _ = s.views[i];
    }
    assert(t.buffers.sound());
}

/// The line of a steady scene changed.
proof fn lemma_with_line(s: Scene, line: CmdLineView)
    requires
        s.steady(),
    ensures
        s.with_line(line).steady(),
{
}

proof fn lemma_list_asks()
    ensures
        tame::tame_node(view_cmds::list_constraints(), view_cmds::list_anchors()),
{
    orderly::lemma_fixed_sized(7);
    orderly::lemma_from_end_inside(8);
}

/// The completion list opened.
proof fn lemma_with_list(s: Scene, listed: Option<Seq<Seq<char>>>)
    requires
        s.steady(),
        s.nodes.roomy(),
        s.can_list(listed),
    ensures
        s.with_list(listed).steady(),
{
    if s.has_completions(listed) {
        let comp = ComponentView::AutoComplete(s.completion_list(listed));
        let root = s.overlay_root();
        let (c, a) = (view_cmds::list_constraints(), view_cmds::list_anchors());
        assert(s.nodes.live(NodeIdx::Split(s.nodes.roots[2])));
        lemma_list_asks();
        lemma_room_for_leaf(s.nodes, comp, root, c, a);
        lemma_scene_grown(s, comp, root, c, a, s.views.len() as int);
    }
}

/// Where there is room in the overlay, the completion list can be opened.
pub proof fn law_can_list(s: Scene, listed: Option<Seq<Seq<char>>>)
    requires
        s.steady(),
        s.nodes.roomy(),
        s.nodes.split(s.overlay_root()).children.len() < u16::MAX,
    ensures
        s.can_list(listed),
{
    let comp = ComponentView::AutoComplete(s.completion_list(listed));
    assert(s.nodes.live(NodeIdx::Split(s.nodes.roots[2])));
    lemma_list_asks();
    lemma_scene_grown(
        s,
        comp,
        s.overlay_root(),
        view_cmds::list_constraints(),
        view_cmds::list_anchors(),
        s.views.len() as int,
    );
}

/// The split that the focus moves to is there, and the place is in it.
proof fn lemma_seek(m: NodesView, s: SplitIdx, side: Side, from: Rect, depth: nat)
    requires
        m.linked(-1),
        m.live(NodeIdx::Split(s)),
    ensures
        m.seek(s, side, from, depth) matches Some((q, i)) ==> m.live(NodeIdx::Split(q)) && 0 <= i
            < m.split(q).children.len(),
    decreases depth,
{
    if depth > 0 {
        let c = m.split(s).children;
        lemma_beyond(m, c, side, from);
        if m.beyond(c, side, from) is None {
            if let Some(p) = m.split(s).parent {
                let rank = choose|rank: Seq<nat>| m.ranked(rank);
                nodes::lemma_parent_live(m, rank, s, p);
                lemma_seek(m, p, side, from, (depth - 1) as nat);
            }
        }
    }
}

proof fn lemma_beyond(m: NodesView, c: Seq<NodeIdx>, side: Side, from: Rect)
    ensures
        m.first_beyond(c, side, from) matches Some(i) ==> 0 <= i < c.len(),
        m.last_beyond(c, side, from) matches Some(i) ==> 0 <= i < c.len(),
    decreases c.len(),
{
    if c.len() > 0 {
        lemma_beyond(m, c.drop_last(), side, from);
    }
}

proof fn lemma_refocused(s: Scene, side: Side)
    requires
        s.steady(),
        s.nodes.live(NodeIdx::Split(s.nodes.leaf(s.focus).parent)),
    ensures
        (Scene {
            nodes: s.nodes.refocused(s.focus, side),
            focus: s.nodes.refocused_leaf(s.focus, side),
            ..s
        }).steady(),
{
    let m = s.nodes;
    let l = s.focus;
    lemma_seek(m, m.leaf(l).parent, side, m.leaf(l).rect, m.splits.len());
    if let Some((q, i)) = m.neighbour(l, side) {
        orderly::law_refocused(m, q, i);
        let g = m.with_focus(q, i);
        let n = m.split(q).children[i];
        assert(g.splits[q.0 as int].children[i] == n);
        let rank = choose|rank: Seq<nat>| g.ranked(rank);
        assert(g.children_linked(q.0 as int));
        assert(g.live(g.splits[q.0 as int].children[i]));
        tree_layout::lemma_linked_sound(g, -1);
        tree_pruning::lemma_follow_in(g, n, g.splits.len());
        match n {
            NodeIdx::Leaf(_) => {},
            NodeIdx::Split(c) => {
                assert(g.split(c).children.len() > 0);
                tree_pruning::lemma_follow_reaches(g, -1, rank, c, g.splits.len());
            },
        }
    }
}

/// A command of a view keeps the editor steady.
pub proof fn law_view_acted(e: EditorView, cmd: ViewCmd, v: ViewIdx, reply: Reply)
    requires
        e.scene.steady(),
        e.scene.roomy(),
        e.view_allows(cmd, v, reply),
    ensures
        e.view_acted(cmd, v, reply).scene.steady(),
{
    let s = e.scene;
    let p = s.pane(v);
    let rect = s.tree_rect();
    let t = p.buffer.text;
    match cmd {
        ViewCmd::EnterVisual => {
            let w = TextView {
                mode: views::Mode::Visual,
                selection: Some((p.view.cursor, (p.view.cursor + 1) as usize)),
                ..p.view
            };
            lemma_with_pane(s, v, p.with_view(w));
        },
        ViewCmd::EnterInsert => {
            let w = TextView { mode: views::Mode::Insert, selection: None, ..p.view };
            lemma_with_pane(s, v, p.with_view(w));
        },
        ViewCmd::Insert(c) => lemma_with_pane(s, v, p.typed(c)),
        ViewCmd::NewLine => lemma_with_pane(s, v, p.line_broken(rect)),
        ViewCmd::BackSpace => {
            lemma_erased_keeps_buf(p.before_deletion(), rect, p.deletion_count());
            lemma_with_pane(s, v, p.deleted(rect));
        },
        ViewCmd::Undo => lemma_with_pane(s, v, p.undone()),
        ViewCmd::Redo => lemma_with_pane(s, v, p.redone(rect)),
        ViewCmd::MoveUp => lemma_with_pane(s, v, p.with_view(p.view.moved_up(t, rect))),
        ViewCmd::MoveDown => lemma_with_pane(s, v, p.with_view(p.view.moved_down(t, rect))),
        ViewCmd::MoveRight => lemma_with_pane(s, v, p.with_view(p.view.moved_right(t))),
        ViewCmd::MoveLeft => lemma_with_pane(s, v, p.with_view(p.view.moved_left(t))),
        ViewCmd::MoveSelectionUp => lemma_with_pane(
            s,
            v,
            p.with_view(p.view.selection_moved_up(t, rect)),
        ),
        ViewCmd::MoveSelectionDown => lemma_with_pane(
            s,
            v,
            p.with_view(p.view.selection_moved_down(t, rect)),
        ),
        ViewCmd::MoveSelectionRight => lemma_with_pane(
            s,
            v,
            p.with_view(p.view.selection_moved_right(t)),
        ),
        ViewCmd::MoveSelectionLeft => lemma_with_pane(
            s,
            v,
            p.with_view(p.view.selection_moved_left(t)),
        ),
        ViewCmd::FocusUp => lemma_refocused(s, Side::Up),
        ViewCmd::FocusDown => lemma_refocused(s, Side::Down),
        ViewCmd::FocusRight => lemma_refocused(s, Side::Right),
        ViewCmd::FocusLeft => lemma_refocused(s, Side::Left),
        ViewCmd::EnterCmd => lemma_with_list(s.in_cmd_line(v, s.tree_focus()), None),
        ViewCmd::Paste => {
            if let Some(text) = e.clipboard {
                lemma_with_pane(s, v, p.pasted(text));
            }
        },
        ViewCmd::PasteClipboard => {
            if let Reply::Clipboard(Some(text)) = reply {
                lemma_with_pane(s, v, p.clipboard_pasted(text@));
            }
        },
        _ => {
            let w = TextView { mode: views::Mode::Normal, selection: None, ..p.view };
            lemma_with_pane(s, v, p.with_view(w));
        },
    }
}

// ---- the commands of the command line

/// Some of the buffers changed, none gone; the view of the command line on one
/// of them.
proof fn lemma_with_buffers(s: Scene, b: BuffersView, view: TextView)
    requires
        s.steady(),
        s.anchored(),
        b.sound(),
        s.buffers.data.len() <= b.data.len(),
        b.has(view.buf),
    ensures
        (Scene { buffers: b, ..s }).steady(),
        (Scene { buffers: b, ..s }).with_view(view).steady(),
{
    let t = (Scene { buffers: b, ..s }).with_view(view);
    assert forall|i: int| 0 <= i < t.views.len() implies t.buffers.has(
        (#[trigger] t.views[i]).buf,
    ) by {
        let _ = s.views[i];
    }
}

proof fn lemma_pushed(b: BuffersView, v: BufferView, resolved: Option<Seq<char>>)
    requires
        b.sound(),
        b.data.len() < usize::MAX,
    ensures
        b.pushed(v, resolved).sound(),
        b.pushed(v, resolved).has(b.next_idx()),
        b.pushed(v, resolved).data.len() >= b.data.len(),
{
    let g = b.pushed(v, resolved);
    if b.free.len() > 0 {
        assert(b.has(b.free[0]));
    }
    assert forall|k: int| 0 <= k < g.free.len() implies g.has(#[trigger] g.free[k]) by {
        assert(b.has(b.free[k + 1]));
    }
    assert forall|p: Seq<char>| g.path_map.contains_key(p) implies g.has(
        #[trigger] g.path_map[p],
    ) by {
        if b.path_map.contains_key(p) {
            assert(b.has(b.path_map[p]));
        }
    }
}

proof fn lemma_closed(b: BuffersView, i: BufferIdx)
    requires
        b.sound(),
        b.has(i),
    ensures
        b.closed(i).sound(),
        b.closed(i).data.len() == b.data.len(),
{
    let g = b.closed(i);
    assert forall|k: int| 0 <= k < g.free.len() implies g.has(#[trigger] g.free[k]) by {
        if k < b.free.len() {
            assert(b.has(b.free[k]));
        }
    }
    assert forall|p: Seq<char>| g.path_map.contains_key(p) implies g.has(
        #[trigger] g.path_map[p],
    ) by {
        assert(b.has(b.path_map[p]));
    }
}

proof fn lemma_replaced(b: BuffersView, i: BufferIdx, v: BufferView)
    requires
        b.sound(),
        b.has(i),
    ensures
        b.with(i, v).sound(),
        b.with(i, v).data.len() == b.data.len(),
{
    let g = b.with(i, v);
    assert forall|k: int| 0 <= k < g.free.len() implies g.has(#[trigger] g.free[k]) by {
        assert(b.has(b.free[k]));
    }
    assert forall|p: Seq<char>| g.path_map.contains_key(p) implies g.has(
        #[trigger] g.path_map[p],
    ) by {
        assert(b.has(b.path_map[p]));
    }
}

/// The view of the command line changed, on a buffer that is there.
proof fn lemma_with_view(s: Scene, view: TextView)
    requires
        s.steady(),
        s.anchored(),
        s.buffers.has(view.buf),
    ensures
        s.with_view(view).steady(),
        s.with_view(view).anchored(),
{
    lemma_with_buffers(s, s.buffers, view);
    assert(s.with_view(view) == (Scene { buffers: s.buffers, ..s }).with_view(view));
}

proof fn lemma_own_buffer(s: Scene)
    requires
        s.steady(),
        s.anchored(),
    ensures
        s.buffers.has(s.buffer_idx()),
{
    let _ = s.views[s.view_idx().0 as int];
}

proof fn lemma_close_buffer(s: Scene, arg: Option<ArgValView>, force: bool)
    requires
        s.steady(),
        s.anchored(),
        s.can_close_buffer(arg, force),
    ensures
        s.close_buffer(arg, force).0.steady(),
{
    let target = s.close_target(arg);
    if s.close_stop(target, force) is None {
        let view = TextView {
            buf: BufferIdx { idx: SCRATCH },
            off: 0,
            cursor: 0,
            prefered_x: 0,
            ..s.view()
        };
        lemma_closed(s.buffers, target);
        lemma_with_buffers(s, s.buffers.closed(target), view);
        lemma_own_buffer(s);
        lemma_with_buffers(s, s.buffers.closed(target), s.view());
        let t = (Scene { buffers: s.buffers.closed(target), ..s }).with_view(view);
        lemma_with_line(t, CmdLineView { input: Seq::empty(), ..t.line });
    }
}

proof fn lemma_open(s: Scene, arg: Option<ArgValView>, reply: Reply)
    requires
        s.steady(),
        s.anchored(),
        s.roomy(),
        s.can_open(arg, reply),
    ensures
        s.open(arg, reply).0.steady(),
{
    lemma_own_buffer(s);
    let r = s.rewound();
    lemma_with_view(s, TextView { off: 0, cursor: 0, prefered_x: 0, ..s.view() });
    match arg {
        None => lemma_new_buffer(r, None, None, Found::Missing),
        Some(ArgValView::FilePath(_)) => {
            if let Reply::File(f) = reply {
                let resolved = strings::option_text(f.resolved);
                match r.opened(resolved) {
                    Some(idx) => {
                        assert(r.buffers.has(r.buffers.path_map[resolved->0]));
                        lemma_with_view(
                            r,
                            scene::switched_view(r.view(), idx, r.buffers.at(idx)),
                        );
                    },
                    None => {
                        if let Ok(found) = f.content {
                            lemma_new_buffer(r, Some(f.path@), resolved, found);
                        }
                    },
                }
            }
        },
        Some(_) => {},
    }
}

proof fn lemma_new_buffer(
    s: Scene,
    path: Option<Seq<char>>,
    resolved: Option<Seq<char>>,
    found: Found,
)
    requires
        s.steady(),
        s.anchored(),
        s.roomy(),
    ensures
        s.with_new_buffer(path, resolved, found).steady(),
{
    let b = BufferView::loaded(path, 0, found);
    lemma_pushed(s.buffers, b, resolved);
    lemma_with_buffers(
        s,
        s.buffers.pushed(b, resolved),
        TextView { buf: s.buffers.next_idx(), ..s.view() },
    );
}

proof fn lemma_switch_buffer(s: Scene, idx: BufferIdx, reply: Reply)
    requires
        s.steady(),
        s.anchored(),
    ensures
        s.switch_buffer(idx, reply).0.steady(),
{
    lemma_own_buffer(s);
    let own = s.buffers.at(s.buffer_idx());
    let left = BufferView { last_off: s.view().off, last_cursor: s.view().cursor, ..own };
    lemma_replaced(s.buffers, s.buffer_idx(), left);
    lemma_with_buffers(s, s.left().buffers, s.view());
    if s.buffers.has(idx) {
        let b = scene::remembered(s.left().reloaded_buffer(idx, reply));
        lemma_replaced(s.left().buffers, idx, b);
        let t = s.turned_to(idx, reply);
        lemma_with_buffers(s.left(), s.left().buffers.with(idx, b), t.view());
        assert(t.view() == scene::switched_view(s.view(), idx, b));
        let rect = s.nodes.leaf(s.leaf_idx()).rect;
        lemma_with_view(t, t.view().scrolled(t.buffers.at(idx).text, rect));
    }
}

proof fn lemma_save(s: Scene, arg: Option<ArgValView>, reply: Reply)
    requires
        s.steady(),
        s.anchored(),
    ensures
        s.save(arg, reply).0.steady(),
{
    lemma_own_buffer(s);
    let b = s.buffers.at(s.buffer_idx());
    let clean = BufferView { undo: Seq::empty(), redo: Seq::empty(), ..b };
    lemma_replaced(s.buffers, s.buffer_idx(), clean);
    lemma_with_buffers(s, s.buffers.with(s.buffer_idx(), clean), s.view());
}

pub proof fn lemma_close_view(s: Scene)
    requires
        s.steady(),
        s.anchored(),
        s.roomy(),
        s.parent().0 < s.nodes.splits.len(),
        s.is_attached(),
    ensures
        s.can_close_view(),
        s.close_view().steady(),
{
    let m = s.nodes;
    orderly::law_removed(m, s.views, s.parent(), s.leaf_idx());
    lemma_removed_shows(m, s.views, s.parent(), s.leaf_idx());
    orderly::law_focus(s.nodes_without_view());
}

pub proof fn lemma_divide(s: Scene, direction: Direction)
    requires
        s.steady(),
        s.anchored(),
        s.roomy(),
        s.parent().0 < s.nodes.splits.len(),
        s.is_attached() ==> s.nodes.split(s.parent()).children.len() < u16::MAX,
    ensures
        s.can_divide(direction),
        s.divide(direction).steady(),
{
    if s.is_attached() {
        let m = s.nodes;
        let c = m.split(s.parent()).children;
        let i = s.place_in_parent();
        let view = s.view_idx();
        let other = ViewIdx(s.views.len() as usize);
        assert(m.children_linked(s.parent().0 as int));
        tree_pruning::lemma_remove_index(c, NodeIdx::Leaf(s.leaf_idx()));
        orderly::law_divided(m, s.parent(), i, direction, view, other);
        lemma_divided_shows(s, direction);
        assert(s.with_scratch_view().views.len() == s.views.len() + 1);
        assert(views_sound(s.with_scratch_view().views, s.buffers)) by {
            let w = s.with_scratch_view().views;
            assert forall|j: int| 0 <= j < w.len() implies s.buffers.has(
                (#[trigger] w[j]).buf,
            ) by {
                if j < s.views.len() {
                    let _ = s.views[j];
                }
            }
        }
    }
}

proof fn lemma_divided_shows(s: Scene, direction: Direction)
    requires
        s.steady(),
        s.anchored(),
        s.roomy(),
        s.parent().0 < s.nodes.splits.len(),
        s.nodes.live(NodeIdx::Split(s.parent())),
        s.is_attached(),
        s.nodes.split(s.parent()).children.len() < u16::MAX,
    ensures
        ({
            let g = s.nodes.divided(
                s.parent(),
                s.place_in_parent(),
                direction,
                s.view_idx(),
                ViewIdx(s.views.len() as usize),
            );
            &&& g.shows(s.views.len() as int + 1)
            &&& g.leaves.len() >= s.nodes.leaves.len()
            &&& s.nodes.new_leaf_idx().0 < g.leaves.len()
        }),
{
    let m = s.nodes;
    let n: int = s.views.len() as int + 1;
    let (c, a) = (ConstraintsView::free(), AnchorsView::free());
    let k = m.new_split_idx();
    let first = ComponentView::View(s.view_idx());
    let second = ComponentView::View(ViewIdx(s.views.len() as usize));
    let parent = s.parent();
    orderly::law_forked(m, first, parent, direction);
    lemma_forked_shows(m, first, parent, direction, n);
    let f = m.forked(first, parent, direction, c, a);
    orderly::lemma_free_tame();
    orderly::lemma_one_more_leaf(f, second, k, parent);
    lemma_grown_shows(f, second, k, c, a, n);
    let g = f.grown(second, k, c, a);
    let h = g.with_swap_removed(parent, s.place_in_parent());
    assert(h.leaves == g.leaves);
    assert(h.shows(n));
    let i = s.place_in_parent();
    assert(m.children_linked(parent.0 as int));
    tree_pruning::lemma_remove_index(m.split(parent).children, NodeIdx::Leaf(s.leaf_idx()));
    assert(g.split(parent).children[i] == NodeIdx::Leaf(s.leaf_idx()));
    scene::lemma_swap_removed(g, parent, i);
    tree_layout::lemma_linked_sound(h, -1);
    tree_layout::lemma_relayout_moved(h, parent, h.splits.len());
    lemma_moved_shows(h, h.laid_out(parent), n);
}

proof fn lemma_forked_shows(
    m: NodesView,
    comp: ComponentView,
    parent: SplitIdx,
    direction: Direction,
    n: int,
)
    requires
        m.wf(),
        m.roomy(),
        m.live(NodeIdx::Split(parent)),
        m.shows(n),
        comp matches ComponentView::View(v) ==> v.0 < n,
    ensures
        ({
            let g = m.forked(comp, parent, direction, ConstraintsView::free(), AnchorsView::free());
            &&& g.shows(n)
            &&& m.leaves.len() <= g.leaves.len() <= m.leaves.len() + 1
            &&& m.new_leaf_idx().0 < g.leaves.len()
        }),
{
    let (c, a) = (ConstraintsView::free(), AnchorsView::free());
    let k = m.new_split_idx();
    let b = m.branched(parent, direction, c, a);
    tree_growth::lemma_branched_linked(m, parent, direction, c, a);
    assert(b.leaves == m.leaves && b.free_leaves == m.free_leaves);
    assert(b.shows(n));
    let planted = b.planted(comp, k, c, a);
    tree_growth::lemma_planted_linked(b, -1, comp, k, c, a);
    tree_layout::lemma_linked_sound(planted, -1);
    tree_layout::lemma_relayout_moved(planted, k, planted.splits.len());
    lemma_grown_shows(b, comp, k, c, a, n);
    let grown = b.grown(comp, k, c, a);
    tree_layout::lemma_moved_linked(planted, grown, -1);
    tree_layout::lemma_linked_sound(grown, -1);
    tree_layout::lemma_relayout_moved(grown, parent, grown.splits.len());
    lemma_moved_shows(grown, grown.laid_out(parent), n);
}

pub proof fn lemma_split(s: Scene)
    requires
        s.steady(),
        s.anchored(),
        s.roomy(),
        s.nodes.live(NodeIdx::Split(s.parent())),
        s.nodes.split(s.parent()).children.len() < u16::MAX,
    ensures
        s.can_split(),
        s.split().steady(),
{
    let comp = ComponentView::View(ViewIdx(s.views.len() as usize));
    let (c, a) = (ConstraintsView::free(), AnchorsView::free());
    orderly::lemma_free_tame();
    lemma_scene_grown(s, comp, s.parent(), c, a, s.views.len() as int + 1);
    let w = s.with_scratch_view().views;
    assert forall|j: int| 0 <= j < w.len() implies s.buffers.has((#[trigger] w[j]).buf) by {
        if j < s.views.len() {
            let _ = s.views[j];
        }
    }
}

pub proof fn lemma_list_buffers(s: Scene)
    requires
        s.steady(),
        s.nodes.roomy(),
        (s.buffers.data.len() as u16) + 2 <= u16::MAX,
        s.nodes.split(s.overlay_root()).children.len() < u16::MAX,
    ensures
        s.can_list_buffers(),
        s.list_buffers().steady(),
{
    let c = scene::buffer_list_constraints(s.buffers.data.len() as int);
    orderly::lemma_fixed_sized((((s.buffers.data.len() as int) as u16) + 2) as u16);
    orderly::lemma_fixed_sized(20);
    assert(s.nodes.live(NodeIdx::Split(s.nodes.roots[2])));
    lemma_scene_grown(
        s,
        ComponentView::BufferList,
        s.overlay_root(),
        c,
        AnchorsView::free(),
        s.views.len() as int,
    );
}

/// A command keeps the editor steady.
pub proof fn law_executed(s: Scene, cmd: CmdValView, reply: Reply)
    requires
        s.steady(),
        s.roomy(),
        s.can_execute(cmd, reply),
    ensures
        s.executed(cmd, reply).0.steady(),
{
    let (c, a) = (ConstraintsView::free(), AnchorsView::free());
    match cmd.cmd {
        Cmd::BufferClose => lemma_close_buffer(s, cmd.argument, cmd.force),
        Cmd::Open => lemma_open(s, cmd.argument, reply),
        Cmd::ViewClose => lemma_close_view(s),
        Cmd::BufferSwitch => {
            if let Some(ArgValView::BufferIndex(idx)) = cmd.argument {
                lemma_switch_buffer(s, BufferIdx { idx }, reply);
            }
        },
        Cmd::BufferList => {
            assert(s.nodes.live(NodeIdx::Split(s.nodes.roots[2])));
            lemma_room_for_leaf(
                s.nodes,
                ComponentView::BufferList,
                s.overlay_root(),
                scene::buffer_list_constraints(s.buffers.data.len() as int),
                AnchorsView::free(),
            );
            lemma_list_buffers(s);
        },
        Cmd::Save => lemma_save(s, cmd.argument, reply),
        Cmd::SplitV => {
            lemma_room_to_divide(s, Direction::Vertical);
            lemma_divide(s, Direction::Vertical);
        },
        Cmd::SplitH => {
            lemma_room_to_divide(s, Direction::Horizontal);
            lemma_divide(s, Direction::Horizontal);
        },
        Cmd::Split => {
            lemma_room_for_leaf(
                s.nodes,
                ComponentView::View(ViewIdx(s.views.len() as usize)),
                s.parent(),
                c,
                a,
            );
            lemma_split(s);
        },
        _ => {},
    }
}

/// Where a leaf can be divided, its parent has room.
proof fn lemma_room_to_divide(s: Scene, direction: Direction)
    requires
        s.steady(),
        s.roomy(),
        s.can_divide(direction),
    ensures
        s.is_attached() ==> s.nodes.split(s.parent()).children.len() < u16::MAX,
{
    if s.is_attached() {
        let m = s.nodes;
        let parent = s.parent();
        let comp = ComponentView::View(s.view_idx());
        let (c, a) = (ConstraintsView::free(), AnchorsView::free());
        let k = m.new_split_idx();
        orderly::lemma_parent_of_child_live(m, parent, NodeIdx::Leaf(s.leaf_idx()));
        let b = m.branched(parent, direction, c, a);
        tree_growth::lemma_branched_linked(m, parent, direction, c, a);
        let planted = b.planted(comp, k, c, a);
        tree_growth::lemma_planted_linked(b, -1, comp, k, c, a);
        tree_layout::lemma_linked_sound(planted, -1);
        tree_layout::lemma_relayout_moved(planted, k, planted.splits.len());
        let grown = b.grown(comp, k, c, a);
        assert(grown.layout_fits(parent));
        assert(grown.division_fits(parent));
        let p = parent.0 as int;
        assert(grown.splits[p].children == planted.splits[p].children);
        assert(planted.splits[p].children == b.splits[p].children);
        if m.free_splits.len() > 0 {
            assert(m.free_splits.contains(m.free_splits[m.free_splits.len() - 1]));
        }
        assert(b.splits[p].children.len() == m.splits[p].children.len() + 1);
    }
}

// ---- the keys of the command line and of the completion list

proof fn lemma_ran(s: Scene, reply: Reply)
    requires
        s.steady(),
        s.roomy(),
        s.can_run(reply),
    ensures
        s.ran(reply).0.steady(),
{
    if let Ok(cmd) = commands::read_line(s.line.input) {
        law_executed(s, cmd, reply);
    }
}

/// A key of the command line keeps the editor steady.
pub proof fn law_line_acted(s: Scene, action: Action, reply: Reply)
    requires
        s.steady(),
        s.roomy(),
        s.line_allows(action, reply),
    ensures
        s.line_acted(action, reply).0.steady(),
{
    match action {
        Action::Exec => lemma_ran(s, reply),
        Action::Insert(c) => {
            let t = s.with_line(s.line.inserted(c));
            lemma_with_line(s, s.line.inserted(c));
            lemma_with_list(t, auto_complete::listed_texts(requests::names_of(reply)));
        },
        _ => {},
    }
}

/// The completion list closed.
pub proof fn lemma_without_list(s: Scene)
    requires
        s.steady(),
        s.roomy(),
        s.nodes.split(s.overlay_root()).children.contains(s.list_node()),
    ensures
        s.can_close_list(),
        s.without_list().steady(),
        s.without_list().nodes.leaves.len() <= s.nodes.leaves.len() + 1,
        s.without_list().nodes.splits.len() == s.nodes.splits.len(),
        s.without_list().views.len() <= s.views.len() + 1,
{
    let m = s.nodes;
    let root = s.overlay_root();
    assert(m.live(NodeIdx::Split(m.roots[2])));
    orderly::law_removed(m, s.views, root, s.focus);
    lemma_removed_shows(m, s.views, root, s.focus);
    let t = s.without_list();
    assert forall|i: int| 0 <= i < t.views.len() implies t.buffers.has(
        (#[trigger] t.views[i]).buf,
    ) by {
        if i < s.views.len() {
            let _ = s.views[i];
        }
    }
}

/// A key of the completion list keeps the editor steady.
pub proof fn law_list_acted(s: Scene, action: ListAction, ac: AutoCompleteView, reply: Reply)
    requires
        s.steady(),
        s.spacious(),
        s.list_allows(action, ac, reply),
    ensures
        s.list_acted(action, ac, reply).0.steady(),
{
    match action {
        ListAction::Noop => {},
        ListAction::Quit => lemma_without_list(s),
        ListAction::Exec => {
            lemma_without_list(s);
            lemma_ran(s.without_list(), reply);
        },
        ListAction::BackSpace => lemma_list_typed(s, action, ac, reply),
        ListAction::Insert(_) => lemma_list_typed(s, action, ac, reply),
        _ => {
            let next = ac.stepped(action, s.list_height());
            orderly::law_with_component(s.nodes, s.focus, ComponentView::AutoComplete(next));
            lemma_shown(s, next);
        },
    }
}

proof fn lemma_shown(s: Scene, ac: AutoCompleteView)
    requires
        s.steady(),
    ensures
        s.with_shown_list(ac).steady(),
{
    orderly::law_with_component(s.nodes, s.focus, ComponentView::AutoComplete(ac));
    let g = s.with_shown_list(ac).nodes;
    assert forall|i: int| 0 <= i < g.leaves.len() implies ((#[trigger] g.leaves[i]).comp matches
        ComponentView::View(v) ==> v.0 < s.views.len()) by {
        let _ = s.nodes.leaves[i];
    }
}

proof fn lemma_list_typed(s: Scene, action: ListAction, ac: AutoCompleteView, reply: Reply)
    requires
        s.steady(),
        s.roomy(),
        s.can_type_in_list(action, ac, reply),
    ensures
        s.list_typed(action, ac, reply).steady(),
{
    let t = s.line_edited(action);
    let list = s.list_edited(action, ac);
    lemma_with_line(s, t.line);
    if t.closes_after(action, list, reply) {
        lemma_without_list(t);
    } else {
        lemma_shown(t, t.refreshed_list(list, reply));
    }
}

/// Whatever key is typed, a steady editor stays steady.
pub proof fn law_stepped(e: EditorView, key: KeyEvent, reply: Reply)
    requires
        e.scene.steady(),
        e.scene.spacious(),
        e.allows(key, reply),
    ensures
        e.stepped(key, reply).0.scene.steady(),
{
    match e.comp() {
        ComponentView::View(v) => law_view_acted(e, e.view_cmd(key, v), v, reply),
        ComponentView::CmdLine => law_line_acted(e.scene, e.line_action(key), reply),
        ComponentView::AutoComplete(ac) => law_list_acted(
            e.scene,
            list_cmds::list_action_of_key(key),
            ac,
            reply,
        ),
        ComponentView::BufferList => {},
    }
}

/// Telling what stopped a command keeps a steady editor steady, and can always
/// be done.
pub proof fn law_told(e: EditorView, stop: EditorErrView)
    requires
        e.scene.steady(),
    ensures
        e.scene.has_tree_focus(),
        e.told(stop).scene.steady(),
{
    orderly::law_focus(e.scene.nodes);
}

/// On a screen of another size a steady editor stays steady.
pub proof fn law_resized(s: Scene, width: u16, height: u16)
    requires
        s.steady(),
    ensures
        s.nodes.resized_fits(width, height),
        (Scene { nodes: s.nodes.resized(width, height), ..s }).steady(),
{
    orderly::law_resized(s.nodes, width, height);
    lemma_moved_shows(s.nodes, s.nodes.resized(width, height), s.views.len() as int);
}

} // verus!
