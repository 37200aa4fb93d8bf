//! What the commands on views come to: where a new view stands, what it shows,
//! and what is left when one is closed.
use vstd::prelude::*;
use crate::commands::CmdValView;
use crate::editor::CMDLINE;
use crate::layout;
use crate::layout::{AnchorsView, ConstraintsView, Dimension, Direction};
use crate::orderly;
use crate::requests::Reply;
use crate::scene;
use crate::scene::Scene;
use crate::tree;
use crate::tree::{ComponentView, LeafIdx, NodeIdx, NodesView, SplitIdx, SplitView};
use crate::tree_growth;
use crate::tree_layout;
use crate::tree_pruning;
use crate::view_cmds;
use crate::views::ViewIdx;

verus! {

/// One more view: at the start of the first buffer, in normal mode.
pub open spec fn one_more_view(s: Scene, t: Scene) -> bool {
    let v = t.views[s.views.len() as int];
    &&& t.views.len() == s.views.len() + 1
    &&& forall|k: int| 0 <= k < s.views.len() ==> #[trigger] t.views[k] == s.views[k]
    &&& v.buf.idx == 0
    &&& v.cursor == 0
    &&& v.off == 0
    &&& v.prefered_x == 0
    &&& v.mode is Normal
    &&& v.selection is None
}

/// Nothing but the tree, the views and the focus has changed, and the command
/// line is ready to be typed in.
pub open spec fn rest_alone(s: Scene, t: Scene) -> bool {
    &&& t.buffers == s.buffers
    &&& t.cwd == s.cwd
    &&& t.line.mode is Insert
    &&& t.line.cursor == 0
    &&& t.line.input == s.line.input
    &&& t.line.last_view == s.line.last_view
}

/// All splits that were there but `p` have the children and the focus that they
/// had; and all of them the direction and the place in the tree.
pub open spec fn other_splits_alone(m: NodesView, n: NodesView, p: int, k: int) -> bool {
    &&& forall|i: int|
        0 <= i < m.splits.len() && i != p && i != k ==> (#[trigger] n.splits[i]).children
            == m.splits[i].children && n.splits[i].focus == m.splits[i].focus
    &&& forall|i: int|
        0 <= i < m.splits.len() && i != k ==> (#[trigger] n.splits[i]).direction
            == m.splits[i].direction && n.splits[i].parent == m.splits[i].parent
    &&& n.roots == m.roots
}

/// All leaves that were there but two show what they showed, below the split
/// that they were below.
pub open spec fn other_leaves_alone(m: NodesView, n: NodesView, a: int, b: int) -> bool {
    forall|i: int|
        0 <= i < m.leaves.len() && i != a && i != b ==> (#[trigger] n.leaves[i]).comp
            == m.leaves[i].comp && n.leaves[i].parent == m.leaves[i].parent
}

/// The slot for a new leaf: the one that was freed last, or, where none is free,
/// one behind all others.
pub open spec fn spare_leaf(m: NodesView, l: LeafIdx) -> bool {
    if m.free_leaves.len() > 0 {
        l.0 == m.free_leaves[m.free_leaves.len() - 1]
    } else {
        l.0 == m.leaves.len()
    }
}

proof fn lemma_grown_shape(
    m: NodesView,
    comp: ComponentView,
    p: SplitIdx,
    c: ConstraintsView,
    a: AnchorsView,
)
    requires
        m.linked(-1),
        m.live(NodeIdx::Split(p)),
        m.leaves.len() < usize::MAX,
    ensures
        ({
            let g = m.grown(comp, p, c, a);
            let l = m.new_leaf_idx();
            &&& g.linked(-1)
            &&& m.planted(comp, p, c, a).moved(g)
            &&& spare_leaf(m, l)
            &&& l.0 < g.leaves.len()
            &&& g.leaves.len() <= m.leaves.len() + 1
            &&& g.leaves[l.0 as int].comp == comp
            &&& g.leaves[l.0 as int].parent == p
            &&& g.splits[p.0 as int].children == m.splits[p.0 as int].children.push(
                NodeIdx::Leaf(l),
            )
            &&& g.splits[p.0 as int].focus == m.splits[p.0 as int].focus
            &&& g.splits.len() == m.splits.len()
            &&& other_splits_alone(m, g, p.0 as int, -1)
            &&& other_leaves_alone(m, g, l.0 as int, -1)
            &&& g.free_splits == m.free_splits
            &&& m.free_leaves.len() > 0 ==> g.free_leaves == m.free_leaves.drop_last()
        }),
{
    let planted = m.planted(comp, p, c, a);
    tree_growth::lemma_planted_linked(m, -1, comp, p, c, a);
    tree_layout::lemma_linked_sound(planted, -1);
    tree_layout::lemma_relayout_moved(planted, p, planted.splits.len());
    let g = m.grown(comp, p, c, a);
    tree_layout::lemma_moved_linked(planted, g, -1);
    if m.free_leaves.len() > 0 {
        assert(m.free_leaves[m.free_leaves.len() - 1] == m.new_leaf_idx().0);
    }
    assert(planted.splits[p.0 as int].children == m.splits[p.0 as int].children.push(
        NodeIdx::Leaf(m.new_leaf_idx()),
    ));
}

/// A view is added behind those of the split that the view is in. It has the
/// focus, and shows the first buffer from its start.
pub proof fn law_split(s: Scene, cmd: CmdValView, reply: Reply)
    requires
        cmd.cmd is Split,
        s.can_execute(cmd, reply),
        s.nodes.leaves.len() < usize::MAX,
        s.views.len() <= usize::MAX,
    ensures
        ({
            let (t, stop) = s.executed(cmd, reply);
            let p = s.nodes.leaves[s.line.last_view.0.0 as int].parent;
            let l = t.focus;
            &&& stop is None
            &&& one_more_view(s, t)
            &&& rest_alone(s, t)
            &&& spare_leaf(s.nodes, l)
            &&& t.nodes.leaves[l.0 as int].comp == ComponentView::View(
                ViewIdx(s.views.len() as usize),
            )
            &&& t.nodes.leaves[l.0 as int].parent == p
            &&& t.nodes.splits[p.0 as int].children == s.nodes.splits[p.0 as int].children.push(
                NodeIdx::Leaf(l),
            )
            &&& t.nodes.splits[p.0 as int].focus == s.nodes.splits[p.0 as int].focus
            &&& s.nodes.free_leaves.len() > 0 ==> t.nodes.free_leaves
                == s.nodes.free_leaves.drop_last()
            &&& other_splits_alone(s.nodes, t.nodes, p.0 as int, -1)
            &&& other_leaves_alone(s.nodes, t.nodes, l.0 as int, -1)
        }),
{
    lemma_grown_shape(
        s.nodes,
        ComponentView::View(ViewIdx(s.views.len() as usize)),
        s.parent(),
        ConstraintsView::free(),
        AnchorsView::free(),
    );
}

/// The view and one more share what the view had: a new split stands in its
/// place, and in this the view comes first and has the focus. The new view
/// shows the first buffer from its start.
#[verifier::rlimit(40)]
pub proof fn law_split_in_two(s: Scene, cmd: CmdValView, reply: Reply, i: int)
    requires
        cmd.cmd is SplitV || cmd.cmd is SplitH,
        s.can_execute(cmd, reply),
        s.nodes.leaves.len() + 1 < usize::MAX,
        s.nodes.splits.len() < usize::MAX,
        s.views.len() <= usize::MAX,
        ({
            let children = s.nodes.splits[s.parent().0 as int].children;
            0 <= i < children.len() && children[i] == NodeIdx::Leaf(s.line.last_view.0)
        }),
    ensures
        ({
            let (t, stop) = s.executed(cmd, reply);
            let p = s.nodes.leaves[s.line.last_view.0.0 as int].parent;
            let node = t.nodes.splits[p.0 as int].children[i];
            let k = node->Split_0;
            let new = t.nodes.splits[k.0 as int];
            let a = new.children[0]->Leaf_0;
            let b = new.children[1]->Leaf_0;
            &&& stop is None
            &&& one_more_view(s, t)
            &&& rest_alone(s, t)
            &&& node is Split
            &&& k.0 == s.nodes.splits.len() || s.nodes.free_splits.contains(k.0)
            &&& t.nodes.splits[p.0 as int].children == s.nodes.splits[p.0 as int].children.update(
                i,
                node,
            )
            &&& cmd.cmd is SplitV ==> new.direction is Vertical
            &&& cmd.cmd is SplitH ==> new.direction is Horizontal
            &&& new.parent == Some(p)
            &&& new.children == seq![NodeIdx::Leaf(a), NodeIdx::Leaf(b)]
            &&& new.focus == 0
            &&& a != b
            &&& spare_leaf(s.nodes, a)
            &&& t.nodes.leaves[a.0 as int].comp == ComponentView::View(s.line.last_view.1)
            &&& t.nodes.leaves[b.0 as int].comp == ComponentView::View(
                ViewIdx(s.views.len() as usize),
            )
            &&& t.nodes.leaves[a.0 as int].parent == k
            &&& t.nodes.leaves[b.0 as int].parent == k
            &&& t.focus == a
            &&& other_splits_alone(s.nodes, t.nodes, p.0 as int, k.0 as int)
            &&& other_leaves_alone(s.nodes, t.nodes, a.0 as int, b.0 as int)
        }),
{
    let m = s.nodes;
    let p = s.parent();
    let children = m.splits[p.0 as int].children;
    let direction = if cmd.cmd is SplitV {
        Direction::Vertical
    } else {
        Direction::Horizontal
    };
    let other = ViewIdx(s.views.len() as usize);
    assert(m.children_linked(p.0 as int));
    assert(children.contains(NodeIdx::Leaf(s.leaf_idx())));
    tree_pruning::lemma_remove_index(children, NodeIdx::Leaf(s.leaf_idx()));
    assert(s.place_in_parent() == i);
    lemma_divided_shape(m, p, i, direction, s.view_idx(), other);
    assert(s.executed(cmd, reply).0 == s.divide(direction));
}

proof fn lemma_divided_shape(
    m: NodesView,
    p: SplitIdx,
    i: int,
    direction: Direction,
    view: ViewIdx,
    other: ViewIdx,
)
    requires
        m.linked(-1),
        p.0 < m.splits.len(),
        m.leaves.len() + 1 < usize::MAX,
        m.splits.len() < usize::MAX,
        0 <= i < m.splits[p.0 as int].children.len(),
        m.splits[p.0 as int].children[i] is Leaf,
    ensures
        ({
            let n = m.divided(p, i, direction, view, other);
            let k = m.new_split_idx();
            let a = m.new_leaf_idx();
            let new = n.splits[k.0 as int];
            let b = new.children[1]->Leaf_0;
            &&& n.splits[p.0 as int].children == m.splits[p.0 as int].children.update(
                i,
                NodeIdx::Split(k),
            )
            &&& k.0 == m.splits.len() || m.free_splits.contains(k.0)
            &&& new.direction == direction
            &&& new.parent == Some(p)
            &&& new.children == seq![NodeIdx::Leaf(a), NodeIdx::Leaf(b)]
            &&& new.focus == 0
            &&& a != b
            &&& spare_leaf(m, a)
            &&& n.leaves[a.0 as int].comp == ComponentView::View(view)
            &&& n.leaves[b.0 as int].comp == ComponentView::View(other)
            &&& n.leaves[a.0 as int].parent == k
            &&& n.leaves[b.0 as int].parent == k
            &&& other_splits_alone(m, n, p.0 as int, k.0 as int)
            &&& other_leaves_alone(m, n, a.0 as int, b.0 as int)
        }),
{
    let (c, a) = (ConstraintsView::free(), AnchorsView::free());
    let k = m.new_split_idx();
    let children = m.splits[p.0 as int].children;
    lemma_forked_shape(m, p, i, direction, view);
    let f = m.forked(ComponentView::View(view), p, direction, c, a);
    let one = m.new_leaf_idx();
    lemma_grown_shape(f, ComponentView::View(other), k, c, a);
    let h = f.grown(ComponentView::View(other), k, c, a);
    let two = f.new_leaf_idx();
    assert(one != two);
    assert(h.splits[k.0 as int].children =~= seq![NodeIdx::Leaf(one), NodeIdx::Leaf(two)]);
    assert(h.splits[p.0 as int].children == children.push(NodeIdx::Split(k)));
    lemma_moved_last(h, p, i, children, k);
    let n = h.with_swap_removed(p, i).laid_out(p);
    assert(m.divided(p, i, direction, view, other) == n);
    assert(n.splits[k.0 as int].children[1] == NodeIdx::Leaf(two));
}

/// The last child takes the place of child `i`.
proof fn lemma_moved_last(h: NodesView, p: SplitIdx, i: int, children: Seq<NodeIdx>, k: SplitIdx)
    requires
        h.linked(-1),
        p.0 < h.splits.len(),
        h.splits[p.0 as int].children == children.push(NodeIdx::Split(k)),
        h.splits[p.0 as int].focus == 0 || h.splits[p.0 as int].focus < children.len(),
        0 <= i < children.len(),
        children[i] is Leaf,
    ensures
        ({
            let n = h.with_swap_removed(p, i).laid_out(p);
            &&& n.splits[p.0 as int].children == children.update(i, NodeIdx::Split(k))
            &&& n.splits.len() == h.splits.len()
            &&& n.leaves.len() == h.leaves.len()
            &&& other_splits_alone(h, n, p.0 as int, -1)
            &&& other_leaves_alone(h, n, -1, -1)
        }),
{
    assert(h.splits[p.0 as int].children[i] == children[i]);
    scene::lemma_swap_removed(h, p, i);
    let w = h.with_swap_removed(p, i);
    assert(w.splits[p.0 as int].children =~= children.update(i, NodeIdx::Split(k)));
    tree_layout::lemma_linked_sound(w, -1);
    tree_layout::lemma_relayout_moved(w, p, w.splits.len());
}

proof fn lemma_forked_shape(m: NodesView, p: SplitIdx, i: int, direction: Direction, view: ViewIdx)
    requires
        m.linked(-1),
        p.0 < m.splits.len(),
        m.leaves.len() + 1 < usize::MAX,
        m.splits.len() < usize::MAX,
        0 <= i < m.splits[p.0 as int].children.len(),
        m.splits[p.0 as int].children[i] is Leaf,
    ensures
        ({
            let f = m.forked(
                ComponentView::View(view),
                p,
                direction,
                ConstraintsView::free(),
                AnchorsView::free(),
            );
            let k = m.new_split_idx();
            let one = m.new_leaf_idx();
            &&& f.linked(-1)
            &&& f.live(NodeIdx::Split(k))
            &&& p != k
            &&& k.0 == m.splits.len() || m.free_splits.contains(k.0)
            &&& m.splits.len() <= f.splits.len()
            &&& m.leaves.len() <= f.leaves.len() <= m.leaves.len() + 1
            &&& f.splits[k.0 as int].children == seq![NodeIdx::Leaf(one)]
            &&& f.splits[k.0 as int].direction == direction
            &&& f.splits[k.0 as int].focus == 0
            &&& f.splits[k.0 as int].parent == Some(p)
            &&& f.splits[p.0 as int].children == m.splits[p.0 as int].children.push(
                NodeIdx::Split(k),
            )
            &&& f.splits[p.0 as int].focus == m.splits[p.0 as int].focus
            &&& m.splits[p.0 as int].focus == 0 || m.splits[p.0 as int].focus
                < m.splits[p.0 as int].children.len()
            &&& spare_leaf(m, one)
            &&& one.0 < f.leaves.len()
            &&& f.new_leaf_idx() != one
            &&& f.leaves[one.0 as int].comp == ComponentView::View(view)
            &&& f.leaves[one.0 as int].parent == k
            &&& other_splits_alone(m, f, p.0 as int, k.0 as int)
            &&& other_leaves_alone(m, f, one.0 as int, -1)
        }),
{
    let (c, a) = (ConstraintsView::free(), AnchorsView::free());
    let k = m.new_split_idx();
    let one = m.new_leaf_idx();
    let children = m.splits[p.0 as int].children;
    assert(m.children_linked(p.0 as int));
    orderly::lemma_parent_of_child_live(m, p, children[i]);
    tree_growth::lemma_branched_linked(m, p, direction, c, a);
    let b = m.branched(p, direction, c, a);
    if m.free_splits.len() > 0 {
        assert(m.free_splits[m.free_splits.len() - 1] == k.0);
    }
    assert(b.splits[p.0 as int].children == children.push(NodeIdx::Split(k)));
    lemma_grown_shape(b, ComponentView::View(view), k, c, a);
    let g = b.grown(ComponentView::View(view), k, c, a);
    assert(b.new_leaf_idx() == one);
    assert(g.splits[k.0 as int].children =~= seq![NodeIdx::Leaf(one)]);
    assert(b.splits[k.0 as int].parent == Some(p));
    assert(g.splits[p.0 as int].children == b.splits[p.0 as int].children);
    let planted = b.planted(ComponentView::View(view), k, c, a);
    assert(planted.moved(g));
    assert(g.splits[p.0 as int] == SplitView {
        rect: g.splits[p.0 as int].rect,
        ..planted.splits[p.0 as int]
    });
    tree_layout::lemma_linked_sound(g, -1);
    tree_layout::lemma_relayout_moved(g, p, g.splits.len());
    let f = g.laid_out(p);
    tree_layout::lemma_moved_linked(g, f, -1);
    assert(f.splits[k.0 as int].children == g.splits[k.0 as int].children);
    assert(f.children_linked(k.0 as int));
    assert(f.live(f.splits[k.0 as int].children[0]));
    if f.free_leaves.len() > 0 {
        assert(f.free_leaves[f.free_leaves.len() - 1] == f.new_leaf_idx().0);
        assert(f.free_leaves.contains(f.new_leaf_idx().0));
    }
}

/// A view that stands beside others is taken out from among them, and its leaf
/// is free. The focus of the split goes one place to the left, from the first
/// place to the last. No view changes, and the focus is where the tree then
/// leads.
pub proof fn law_view_closed(s: Scene, cmd: CmdValView, reply: Reply, i: int)
    requires
        cmd.cmd is ViewClose,
        s.can_execute(cmd, reply),
        ({
            let children = s.nodes.splits[s.parent().0 as int].children;
            &&& children.len() > 1
            &&& 0 <= i < children.len()
            &&& children[i] == NodeIdx::Leaf(s.line.last_view.0)
        }),
    ensures
        ({
            let (t, stop) = s.executed(cmd, reply);
            let p = s.nodes.leaves[s.line.last_view.0.0 as int].parent;
            &&& stop is None
            &&& t.views == s.views
            &&& rest_alone(s, t)
            &&& t.nodes.splits[p.0 as int].children == s.nodes.splits[p.0 as int].children.remove(i)
            &&& t.nodes.splits[p.0 as int].focus == (if s.nodes.splits[p.0 as int].focus > 0 {
                s.nodes.splits[p.0 as int].focus - 1
            } else {
                s.nodes.splits[p.0 as int].children.len() - 2
            })
            &&& t.nodes.free_leaves == s.nodes.free_leaves.push(s.line.last_view.0.0)
            &&& t.nodes.splits.len() == s.nodes.splits.len()
            &&& t.nodes.leaves.len() == s.nodes.leaves.len()
            &&& other_splits_alone(s.nodes, t.nodes, p.0 as int, -1)
            &&& other_leaves_alone(s.nodes, t.nodes, -1, -1)
            &&& t.nodes.focused(NodeIdx::Split(t.nodes.roots[0])) == Some(t.focus)
        }),
{
    let m = s.nodes;
    let p = s.parent();
    let gone = NodeIdx::Leaf(s.leaf_idx());
    let children = m.splits[p.0 as int].children;
    let rank = choose|rank: Seq<nat>| m.ranked(rank);
    assert(m.children_linked(p.0 as int));
    lemma_without_at(children, i);
    tree_pruning::lemma_dropped_linked(m, rank, p, gone);
    let d = m.dropped(p, gone);
    tree_layout::lemma_linked_sound(d, tree_pruning::loose_index(m, p, gone));
    tree_layout::lemma_relayout_moved(d, p, d.splits.len());
    let n = d.laid_out(p).freed(gone);
    assert(s.nodes_without_view() == n);
    lemma_one_left(m.splits[p.0 as int].focus, children.len() - 1);
}

/// One place to the left, and from the first place to the last.
proof fn lemma_one_left(f: int, n: int)
    requires
        0 <= f <= n,
        n > 0,
    ensures
        (f + n - 1) % n == (if f > 0 {
            f - 1
        } else {
            n - 1
        }),
{
    if f > 0 {
        assert((f + n - 1) % n == f - 1) by (nonlinear_arith)
            requires
                0 < f <= n,
                n > 0,
        ;
    } else {
        assert((n - 1) % n == n - 1) by (nonlinear_arith)
            requires
                n > 0,
        ;
    }
}

/// When the last view is closed, a new one takes its place, with the focus, and
/// shows the first buffer from its start.
#[verifier::rlimit(40)]
pub proof fn law_last_view_closed(s: Scene, cmd: CmdValView, reply: Reply)
    requires
        cmd.cmd is ViewClose,
        s.can_execute(cmd, reply),
        s.nodes.leaves.len() < usize::MAX,
        s.views.len() <= usize::MAX,
        s.parent() == s.nodes.roots[0],
        s.nodes.splits[s.parent().0 as int].children == seq![NodeIdx::Leaf(s.line.last_view.0)],
    ensures
        ({
            let (t, stop) = s.executed(cmd, reply);
            let p = s.nodes.roots[0];
            &&& stop is None
            &&& one_more_view(s, t)
            &&& rest_alone(s, t)
            &&& t.nodes.roots == s.nodes.roots
            &&& t.nodes.splits[p.0 as int].children == seq![NodeIdx::Leaf(t.focus)]
            &&& t.nodes.leaves[t.focus.0 as int].comp == ComponentView::View(
                ViewIdx(s.views.len() as usize),
            )
            &&& t.nodes.leaves[t.focus.0 as int].parent == p
            &&& t.nodes.free_leaves.len() > 0
            &&& t.nodes.free_leaves.last() == s.line.last_view.0.0
        }),
{
    let m = s.nodes;
    let p = s.parent();
    let gone = NodeIdx::Leaf(s.leaf_idx());
    let comp = ComponentView::View(ViewIdx(s.views.len() as usize));
    let rank = choose|rank: Seq<nat>| m.ranked(rank);
    let children = m.splits[p.0 as int].children;
    assert(m.children_linked(p.0 as int));
    assert(children[0] == gone);
    lemma_without_at(children, 0);
    assert(children.remove(0) =~= Seq::<NodeIdx>::empty());
    tree_pruning::lemma_dropped_linked(m, rank, p, gone);
    let d = m.dropped(p, gone);
    assert(m.live(NodeIdx::Split(m.roots[0])));
    assert(m.split(m.roots[0]).parent is None);
    assert(d.split(p).children.len() == 0);
    assert(d.trimmed(p) == d);
    let e = d.with_focus(p, 0);
    tree_pruning::lemma_with_focus_linked(d, -1, p, 0);
    assert(e.live(NodeIdx::Split(p)));
    lemma_grown_shape(e, comp, p, ConstraintsView::free(), AnchorsView::free());
    let r = e.grown(comp, p, ConstraintsView::free(), AnchorsView::free());
    let l = e.new_leaf_idx();
    assert(r == d.reflowed(s.views, p));
    assert(r.splits[p.0 as int].children =~= seq![NodeIdx::Leaf(l)]);
    lemma_one_leaf(r, p, l);
    tree_layout::lemma_linked_sound(r, -1);
    tree_layout::lemma_relayout_moved(r, p, r.splits.len());
    let n = r.laid_out(p).freed(gone);
    assert(s.nodes_without_view() == n);
    lemma_one_leaf(n, p, l);
}

/// From a split with one leaf the focus leads to that leaf.
proof fn lemma_one_leaf(m: NodesView, p: SplitIdx, l: LeafIdx)
    requires
        p.0 < m.splits.len(),
        m.splits[p.0 as int].children == seq![NodeIdx::Leaf(l)],
        m.splits[p.0 as int].focus == 0,
    ensures
        m.focused(NodeIdx::Split(p)) == Some(l),
{
    reveal_with_fuel(NodesView::follow, 2);
}

/// When the only view of a split is closed, the split goes too: it is taken out
/// of the one above it, and its slot is free. No view changes.
#[verifier::rlimit(40)]
pub proof fn law_split_closed(s: Scene, cmd: CmdValView, reply: Reply, g: SplitIdx, i: int)
    requires
        cmd.cmd is ViewClose,
        s.can_execute(cmd, reply),
        s.nodes.splits[s.parent().0 as int].children == seq![NodeIdx::Leaf(s.line.last_view.0)],
        s.nodes.splits[s.parent().0 as int].parent == Some(g),
        ({
            let children = s.nodes.splits[g.0 as int].children;
            &&& children.len() > 1
            &&& 0 <= i < children.len()
            &&& children[i] == NodeIdx::Split(s.parent())
        }),
        s.nodes.roots[0] != s.parent(),
        s.nodes.splits[s.nodes.roots[0].0 as int].children.len() > 0,
    ensures
        ({
            let (t, stop) = s.executed(cmd, reply);
            let p = s.nodes.leaves[s.line.last_view.0.0 as int].parent;
            &&& stop is None
            &&& t.views == s.views
            &&& rest_alone(s, t)
            &&& t.nodes.splits[g.0 as int].children == s.nodes.splits[g.0 as int].children.remove(i)
            &&& t.nodes.splits[g.0 as int].focus == (if s.nodes.splits[g.0 as int].focus > 0 {
                s.nodes.splits[g.0 as int].focus - 1
            } else {
                0
            })
            &&& t.nodes.free_splits == s.nodes.free_splits.push(p.0)
            &&& t.nodes.free_leaves == s.nodes.free_leaves.push(s.line.last_view.0.0)
            &&& other_splits_alone(s.nodes, t.nodes, g.0 as int, p.0 as int)
            &&& other_leaves_alone(s.nodes, t.nodes, -1, -1)
            &&& t.nodes.focused(NodeIdx::Split(t.nodes.roots[0])) == Some(t.focus)
        }),
{
    let m = s.nodes;
    let p = s.parent();
    let gone = NodeIdx::Leaf(s.leaf_idx());
    let rank = choose|rank: Seq<nat>| m.ranked(rank);
    let children = m.splits[p.0 as int].children;
    assert(m.children_linked(p.0 as int));
    assert(children[0] == gone);
    lemma_without_at(children, 0);
    assert(children.remove(0) =~= Seq::<NodeIdx>::empty());
    tree_pruning::lemma_dropped_linked(m, rank, p, gone);
    let d = m.dropped(p, gone);
    assert(m.parent_linked(p.0 as int));
    crate::nodes::lemma_parent_live(m, rank, p, g);
    assert(p != g);
    assert(d.splits[g.0 as int] == m.splits[g.0 as int]);
    let above = m.splits[g.0 as int].children;
    assert(m.children_linked(g.0 as int));
    assert(above.contains(NodeIdx::Split(p)));
    tree_pruning::lemma_remove_index(above, NodeIdx::Split(p));
    assert(above.index_of(NodeIdx::Split(p)) == i);
    let c = d.cut(p, g);
    assert(c.splits[g.0 as int].children == above.remove(i));
    lemma_pruned_once(d, p, g);
    assert(d.trimmed(p) == c);
    assert(m.live(NodeIdx::Split(m.roots[0])));
    assert(!c.bare());
    assert(d.reflowed(s.views, p) == c);
    tree_pruning::lemma_pruned_linked(d, -1, rank, p, d.splits.len());
    tree_layout::lemma_linked_sound(c, -1);
    tree_pruning::lemma_follow_in(c, NodeIdx::Split(c.text_root()), c.splits.len());
    let l = c.focused(NodeIdx::Split(c.text_root()))->0;
    let q = c.leaf(l).parent;
    assert(c.leaves[l.0 as int].parent.0 < c.splits.len());
    tree_layout::lemma_relayout_moved(c, q, c.splits.len());
    let n = c.laid_out(q).freed(gone);
    assert(s.nodes_without_view() == n);
}

proof fn lemma_pruned_once(d: NodesView, p: SplitIdx, g: SplitIdx)
    requires
        d.splits.len() > 1,
        d.split(p).children.len() == 0,
        d.split(p).parent == Some(g),
        d.cut(p, g).split(g).children.len() > 0,
    ensures
        d.trimmed(p) == d.cut(p, g),
{
    reveal_with_fuel(NodesView::pruned, 3);
}

// ---- over the views

/// The list of buffers is opened over the views and has the focus; nothing else
/// changes.
pub proof fn law_buffers_listed(s: Scene, cmd: CmdValView, reply: Reply)
    requires
        cmd.cmd is BufferList,
        s.can_execute(cmd, reply),
        s.nodes.leaves.len() < usize::MAX,
    ensures
        ({
            let (t, stop) = s.executed(cmd, reply);
            let p = s.nodes.roots[2];
            &&& stop is None
            &&& t == Scene { nodes: t.nodes, focus: t.focus, ..s }
            &&& spare_leaf(s.nodes, t.focus)
            &&& t.nodes.leaves[t.focus.0 as int].comp is BufferList
            &&& t.nodes.leaves[t.focus.0 as int].parent == p
            &&& t.nodes.splits[p.0 as int].children == s.nodes.splits[p.0 as int].children.push(
                NodeIdx::Leaf(t.focus),
            )
            &&& other_splits_alone(s.nodes, t.nodes, p.0 as int, -1)
            &&& other_leaves_alone(s.nodes, t.nodes, t.focus.0 as int, -1)
        }),
{
    assert(s.nodes.live(NodeIdx::Split(s.nodes.roots[2])));
    lemma_grown_shape(
        s.nodes,
        ComponentView::BufferList,
        s.overlay_root(),
        scene::buffer_list_constraints(s.buffers.data.len() as int),
        AnchorsView::free(),
    );
}

/// The list of buffers takes twenty columns, and a row for each buffer and two
/// more, as far as there is room.
pub proof fn law_buffer_list_size(buffers: int, width: int, height: int)
    requires
        0 <= buffers,
        buffers + 2 <= height <= u16::MAX,
        20 <= width <= u16::MAX,
    ensures
        layout::bounded_extent(scene::buffer_list_constraints(buffers).max_height, height) == Some(
            buffers + 2,
        ),
        layout::bounded_extent(scene::buffer_list_constraints(buffers).max_width, width) == Some(
            20int,
        ),
{
    reveal_with_fuel(layout::extent, 3);
    let c = scene::buffer_list_constraints(buffers);
    assert((c.max_height->0).drop_last() =~= Seq::<Dimension>::empty());
    assert((c.max_width->0).drop_last() =~= Seq::<Dimension>::empty());
}

/// The completion list is opened over the views and has the focus, where there
/// is anything to complete.
pub proof fn law_list_opened(s: Scene, listed: Option<Seq<Seq<char>>>)
    requires
        s.can_list(listed),
        s.has_completions(listed),
        s.nodes.leaves.len() < usize::MAX,
    ensures
        ({
            let t = s.with_list(listed);
            let p = s.nodes.roots[2];
            &&& t == Scene { nodes: t.nodes, focus: t.focus, ..s }
            &&& t.nodes.linked(-1)
            &&& t.nodes.roots == s.nodes.roots
            &&& spare_leaf(s.nodes, t.focus)
            &&& t.nodes.leaves[t.focus.0 as int].comp == ComponentView::AutoComplete(
                s.completion_list(listed),
            )
            &&& t.nodes.leaves[t.focus.0 as int].parent == p
            &&& t.nodes.splits[p.0 as int].children == s.nodes.splits[p.0 as int].children.push(
                NodeIdx::Leaf(t.focus),
            )
            &&& other_splits_alone(s.nodes, t.nodes, p.0 as int, -1)
            &&& other_leaves_alone(s.nodes, t.nodes, t.focus.0 as int, -1)
        }),
{
    assert(s.nodes.live(NodeIdx::Split(s.nodes.roots[2])));
    lemma_grown_shape(
        s.nodes,
        ComponentView::AutoComplete(s.completion_list(listed)),
        s.overlay_root(),
        view_cmds::list_constraints(),
        view_cmds::list_anchors(),
    );
}

/// The completion list is taken out again from among what stands over the
/// views, its leaf is free, and the command line has the focus. No view changes.
#[verifier::rlimit(40)]
pub proof fn law_list_closed(s: Scene, i: int)
    requires
        s.can_close_list(),
        s.nodes.roots[0] != s.nodes.roots[2],
        s.nodes.splits[s.nodes.roots[0].0 as int].children.len() > 0,
        ({
            let children = s.nodes.splits[s.nodes.roots[2].0 as int].children;
            0 <= i < children.len() && children[i] == NodeIdx::Leaf(s.focus)
        }),
    ensures
        ({
            let t = s.without_list();
            let p = s.nodes.roots[2];
            &&& t.focus == LeafIdx(CMDLINE)
            &&& t.views == s.views
            &&& t == Scene { nodes: t.nodes, focus: t.focus, ..s }
            &&& t.nodes.splits[p.0 as int].children == s.nodes.splits[p.0 as int].children.remove(i)
            &&& t.nodes.free_leaves == s.nodes.free_leaves.push(s.focus.0)
            &&& t.nodes.free_splits == s.nodes.free_splits
            &&& other_splits_alone(s.nodes, t.nodes, p.0 as int, -1)
            &&& other_leaves_alone(s.nodes, t.nodes, -1, -1)
        }),
{
    let m = s.nodes;
    let p = m.roots[2];
    let gone = NodeIdx::Leaf(s.focus);
    let rank = choose|rank: Seq<nat>| m.ranked(rank);
    let children = m.splits[p.0 as int].children;
    assert(m.live(NodeIdx::Split(m.roots[2])));
    assert(m.split(m.roots[2]).parent is None);
    assert(m.live(NodeIdx::Split(m.roots[0])));
    assert(m.children_linked(p.0 as int));
    lemma_without_at(children, i);
    tree_pruning::lemma_dropped_linked(m, rank, p, gone);
    let d = m.dropped(p, gone);
    tree_layout::lemma_linked_sound(d, -1);
    assert(d.splits[p.0 as int].children == children.remove(i));
    assert(d.splits[m.roots[0].0 as int] == m.splits[m.roots[0].0 as int]);
    if d.split(p).children.len() == 0 {
        assert(d.trimmed(p) == d);
        assert(!d.bare());
        assert(d.reflowed(s.views, p) == d);
        tree_pruning::lemma_follow_in(d, NodeIdx::Split(d.text_root()), d.splits.len());
        let l = d.focused(NodeIdx::Split(d.text_root()))->0;
        assert(d.leaves[l.0 as int].parent.0 < d.splits.len());
        tree_layout::lemma_relayout_moved(d, d.leaf(l).parent, d.splits.len());
        assert(s.without_list().nodes == d.laid_out(d.leaf(l).parent).freed(gone));
    } else {
        tree_layout::lemma_relayout_moved(d, p, d.splits.len());
        assert(s.without_list().nodes == d.laid_out(p).freed(gone));
    }
}

proof fn lemma_without_absent(s: Seq<NodeIdx>, x: NodeIdx)
    requires
        forall|j: int| 0 <= j < s.len() ==> #[trigger] s[j] != x,
    ensures
        tree::without(s, x) == s,
    decreases s.len(),
{
    reveal(Seq::filter);
    if s.len() > 0 {
        let rest = s.drop_last();
        assert forall|j: int| 0 <= j < rest.len() implies #[trigger] rest[j] != x by {
            assert(rest[j] == s[j]);
        }
        lemma_without_absent(rest, x);
        assert(s.last() != x);
        assert(s =~= rest.push(s.last()));
    } else {
        assert(tree::without(s, x) =~= s);
    }
}

proof fn lemma_without_at(s: Seq<NodeIdx>, i: int)
    requires
        0 <= i < s.len(),
        s.no_duplicates(),
    ensures
        tree::without(s, s[i]) == s.remove(i),
    decreases s.len(),
{
    reveal(Seq::filter);
    let rest = s.drop_last();
    if i == s.len() - 1 {
        assert forall|j: int| 0 <= j < rest.len() implies #[trigger] rest[j] != s[i] by {
            assert(rest[j] == s[j]);
        }
        lemma_without_absent(rest, s[i]);
        assert(s.remove(i) =~= rest);
    } else {
        assert(rest[i] == s[i]);
        assert(rest.no_duplicates()) by {
            assert forall|j: int, k: int|
                0 <= j < rest.len() && 0 <= k < rest.len() && j != k implies rest[j]
                != rest[k] by {
                assert(rest[j] == s[j] && rest[k] == s[k]);
            }
        }
        lemma_without_at(rest, i);
        assert(s.last() != s[i]);
        assert(s.remove(i) =~= rest.remove(i).push(s.last()));
    }
}

} // verus!
