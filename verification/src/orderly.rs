//! What the operations on a tree keep: a tree that can be laid out stays one.
use vstd::prelude::*;
use crate::divide;
use crate::layout;
use crate::layout::{AnchorsView, ConstraintsView, Dimension, Direction, Position};
use crate::list_cmds;
use crate::scene;
use crate::tame;
use crate::tree;
use crate::tree::{
    ComponentView, LeafIdx, LeafView, NodeIdx, NodesView, SplitIdx, SplitView, ROOT_OVERLAY,
};
use crate::tree_growth;
use crate::tree_layout;
use crate::tree_pruning;
use crate::views;
use crate::views::{TextView, ViewIdx};

verus! {

impl NodesView {
    /// A tree that can be laid out, with its roots in place and something in
    /// the first of them.
    pub open spec fn steady(self) -> bool {
        &&& self.wf()
        &&& self.orderly()
        &&& self.cornered()
        &&& self.roots.len() > ROOT_OVERLAY
        &&& self.roots[0] == SplitIdx(0)
        &&& self.split(SplitIdx(0)).children.len() > 0
    }

    /// There are numbers left for a few new nodes.
    pub open spec fn roomy(self) -> bool {
        self.splits.len() < usize::MAX && self.leaves.len() + 2 < usize::MAX
    }
}

// ---- the sizes that the editor asks for

pub proof fn lemma_free_tame()
    ensures
        tame::tame_node(ConstraintsView::free(), AnchorsView::free()),
{
}

pub proof fn lemma_fixed_sized(n: u16)
    ensures
        tame::sized(Some(seq![Dimension::AddAbsolute(n)])),
{
    let dims = seq![Dimension::AddAbsolute(n)];
    assert(dims.drop_last() =~= Seq::<Dimension>::empty());
    reveal_with_fuel(layout::extent, 2);
    reveal_with_fuel(layout::extent_fits, 2);
}

pub proof fn lemma_rest_sized(n: u16)
    ensures
        tame::sized(Some(seq![Dimension::AddRelative(1), Dimension::SubAbsolute(n)])),
{
    let dims = seq![Dimension::AddRelative(1), Dimension::SubAbsolute(n)];
    let one = seq![Dimension::AddRelative(1)];
    assert(dims.drop_last() =~= one);
    assert(one.drop_last() =~= Seq::<Dimension>::empty());
    reveal_with_fuel(layout::extent, 3);
    reveal_with_fuel(layout::extent_fits, 3);
    assert forall|size: int| 0 <= size <= u16::MAX implies #[trigger] layout::option_extent_fits(
        Some(dims),
        size,
    ) by {
        assert(one.last() == Dimension::AddRelative(1));
        assert(size / (1u16 as int) == size);
        assert(layout::extent(one, size) == size);
    }
}

pub proof fn lemma_from_end_inside(n: u16)
    ensures
        tame::inside(Some(seq![Position::AddRelative(1), Position::SubAbsolute(n)])),
{
    let terms = seq![Position::AddRelative(1), Position::SubAbsolute(n)];
    let one = seq![Position::AddRelative(1)];
    assert(terms.drop_last() =~= one);
    assert(one.drop_last() =~= Seq::<Position>::empty());
    reveal_with_fuel(layout::offset, 3);
    reveal_with_fuel(layout::offset_fits, 3);
    assert forall|size: int|
        #![trigger layout::option_offset_fits(Some(terms), size)]
        #![trigger layout::option_offset(Some(terms), size)]
        0 <= size <= u16::MAX implies {
        &&& layout::option_offset_fits(Some(terms), size)
        &&& layout::option_offset(Some(terms), size) matches Some(o) ==> 0 <= o <= size
    } by {
        assert(one.last() == Position::AddRelative(1));
        assert(size / (1u16 as int) == size);
        assert(layout::offset(one, size) == size);
    }
}

// ---- one split changed

/// A split that keeps its rectangle and what it asks for, with few enough
/// children, keeps a tree orderly.
proof fn lemma_with_split_orderly(m: NodesView, s: SplitIdx, v: SplitView)
    requires
        m.orderly(),
        s.0 < m.splits.len(),
        v.rect == m.split(s).rect,
        v.constraints == m.split(s).constraints,
        v.anchors == m.split(s).anchors,
        v.children.len() <= u16::MAX,
    ensures
        m.with_split(s, v).orderly(),
{
    let g = m.with_split(s, v);
    assert forall|i: int| 0 <= i < g.splits.len() implies {
        &&& tame::tame_node((#[trigger] g.splits[i]).constraints, g.splits[i].anchors)
        &&& g.splits[i].anchors == AnchorsView::free()
        &&& g.splits[i].children.len() <= u16::MAX
        &&& tame::boxed(g.splits[i].rect)
    } by {
        let _ = m.splits[i];
    }
}

proof fn lemma_new_split_orderly(m: NodesView, v: SplitView)
    requires
        m.linked(-1),
        m.orderly(),
        tame::tame_node(v.constraints, v.anchors),
        v.anchors == AnchorsView::free(),
        v.children.len() == 0,
        tame::boxed(v.rect),
    ensures
        m.with_new_split(v).orderly(),
{
    let g = m.with_new_split(v);
    if m.free_splits.len() > 0 {
        assert(m.free_splits[m.free_splits.len() - 1] < m.splits.len());
    }
    assert forall|i: int| 0 <= i < g.splits.len() implies {
        &&& tame::tame_node((#[trigger] g.splits[i]).constraints, g.splits[i].anchors)
        &&& g.splits[i].anchors == AnchorsView::free()
        &&& g.splits[i].children.len() <= u16::MAX
        &&& tame::boxed(g.splits[i].rect)
    } by {
        if i < m.splits.len() {
            let _ = m.splits[i];
        }
    }
}

proof fn lemma_planted_orderly(
    m: NodesView,
    comp: ComponentView,
    parent: SplitIdx,
    c: ConstraintsView,
    a: AnchorsView,
)
    requires
        m.linked(-1),
        m.orderly(),
        parent.0 < m.splits.len(),
        tame::tame_node(c, a),
        m.split(parent).children.len() < u16::MAX,
    ensures
        m.planted(comp, parent, c, a).orderly(),
{
    let v = LeafView {
        parent,
        rect: tree::no_rect(),
        constraints: c,
        anchors: a,
        comp,
    };
    let g = m.with_new_leaf(v);
    if m.free_leaves.len() > 0 {
        assert(m.free_leaves[m.free_leaves.len() - 1] < m.leaves.len());
    }
    assert forall|i: int| 0 <= i < g.leaves.len() implies tame::tame_node(
        (#[trigger] g.leaves[i]).constraints,
        g.leaves[i].anchors,
    ) by {
        if i < m.leaves.len() {
            let _ = m.leaves[i];
        }
    }
    assert(g.splits == m.splits);
    assert(g.orderly());
    let children = m.split(parent).children.push(NodeIdx::Leaf(m.new_leaf_idx()));
    lemma_with_split_orderly(g, parent, SplitView { children, ..g.split(parent) });
}

// ---- growth

/// A leaf can be added to an orderly tree, and leaves it orderly.
pub proof fn law_grown(
    m: NodesView,
    comp: ComponentView,
    parent: SplitIdx,
    c: ConstraintsView,
    a: AnchorsView,
)
    requires
        m.wf(),
        m.orderly(),
        m.roomy(),
        m.live(NodeIdx::Split(parent)),
        tame::tame_node(c, a),
        m.split(parent).children.len() < u16::MAX,
    ensures
        m.grown_fits(comp, parent, c, a),
        m.grown(comp, parent, c, a).wf(),
        m.grown(comp, parent, c, a).orderly(),
        m.cornered() ==> m.grown(comp, parent, c, a).cornered(),
        m.planted(comp, parent, c, a).moved(m.grown(comp, parent, c, a)),
        m.steady() ==> m.grown(comp, parent, c, a).steady(),
{
    let planted = m.planted(comp, parent, c, a);
    lemma_planted_orderly(m, comp, parent, c, a);
    tree_growth::lemma_planted_linked(m, -1, comp, parent, c, a);
    tame::law_layout(planted, -1, parent);
    let g = planted.laid_out(parent);
    if m.steady() {
        assert(m.live(NodeIdx::Split(m.roots[0])));
        assert(g.splits[0].children == planted.splits[0].children);
    }
}

proof fn lemma_branched_orderly(m: NodesView, parent: SplitIdx, direction: Direction)
    requires
        m.linked(-1),
        m.orderly(),
        m.roomy(),
        m.live(NodeIdx::Split(parent)),
        m.split(parent).children.len() < u16::MAX,
    ensures
        m.branched(
            parent,
            direction,
            ConstraintsView::free(),
            AnchorsView::free(),
        ).orderly(),
{
    let v = SplitView {
        parent: Some(parent),
        children: Seq::empty(),
        direction,
        focus: 0,
        rect: tree::no_rect(),
        constraints: ConstraintsView::free(),
        anchors: AnchorsView::free(),
    };
    lemma_new_split_orderly(m, v);
    let g = m.with_new_split(v);
    if m.free_splits.len() > 0 {
        assert(m.free_splits.contains(m.free_splits[m.free_splits.len() - 1]));
    }
    assert(g.split(parent) == m.split(parent));
    let children = m.split(parent).children.push(NodeIdx::Split(m.new_split_idx()));
    lemma_with_split_orderly(g, parent, SplitView { children, ..g.split(parent) });
}

/// A split with one leaf can be added to an orderly tree, and leaves it
/// orderly.
pub proof fn law_forked(
    m: NodesView,
    comp: ComponentView,
    parent: SplitIdx,
    direction: Direction,
)
    requires
        m.wf(),
        m.orderly(),
        m.roomy(),
        m.live(NodeIdx::Split(parent)),
        m.split(parent).children.len() < u16::MAX,
    ensures
        ({
            let (c, a) = (ConstraintsView::free(), AnchorsView::free());
            let g = m.forked(comp, parent, direction, c, a);
            let k = m.new_split_idx();
            &&& m.forked_fits(comp, parent, direction, c, a)
            &&& g.wf()
            &&& g.orderly()
            &&& g.live(NodeIdx::Split(k))
            &&& k != parent
            &&& g.split(k).children.len() == 1
            &&& g.split(parent).children == m.split(parent).children.push(NodeIdx::Split(k))
            &&& g.split(parent).focus == m.split(parent).focus
            &&& g.live(NodeIdx::Split(parent))
            &&& g.roots == m.roots
            &&& m.steady() ==> g.steady()
            &&& g.splits.len() <= m.splits.len() + 1
            &&& g.leaves.len() <= m.leaves.len() + 1
        }),
{
    let (c, a) = (ConstraintsView::free(), AnchorsView::free());
    let k = m.new_split_idx();
    let b = m.branched(parent, direction, c, a);
    lemma_branched_orderly(m, parent, direction);
    tree_growth::lemma_branched_linked(m, parent, direction, c, a);
    let planted = b.planted(comp, k, c, a);
    lemma_planted_orderly(b, comp, k, c, a);
    tree_growth::lemma_planted_linked(b, -1, comp, k, c, a);
    tree_growth::lemma_forked_filled(m, comp, parent, direction, c, a);
    tame::law_layout(planted, -1, k);
    let grown = planted.laid_out(k);
    tame::law_layout(grown, -1, parent);
    let g = grown.laid_out(parent);
    if m.free_splits.len() > 0 {
        assert(m.free_splits.contains(m.free_splits[m.free_splits.len() - 1]));
    }
    let p = parent.0 as int;
    assert(g.splits[p].children == grown.splits[p].children);
    assert(grown.splits[p].children == planted.splits[p].children);
    assert(planted.splits[p].children == b.splits[p].children);
    assert(g.splits[p].focus == grown.splits[p].focus);
    assert(grown.splits[p].focus == planted.splits[p].focus);
    let q = k.0 as int;
    assert(g.splits[q].children == grown.splits[q].children);
    assert(grown.splits[q].children == planted.splits[q].children);
    if m.steady() {
        assert(m.live(NodeIdx::Split(m.roots[0])));
        assert(g.splits[0].children == grown.splits[0].children);
        assert(grown.splits[0].children == planted.splits[0].children);
        assert(k.0 != 0);
    }
}

/// A leaf of an orderly tree can be divided, which leaves the tree orderly.
pub proof fn law_divided(
    m: NodesView,
    parent: SplitIdx,
    i: int,
    direction: Direction,
    view: ViewIdx,
    other: ViewIdx,
)
    requires
        m.steady(),
        m.roomy(),
        parent.0 < m.splits.len(),
        m.split(parent).children.len() < u16::MAX,
        0 <= i < m.split(parent).children.len(),
        m.split(parent).children[i] is Leaf,
    ensures
        m.division_of_leaf_fits(parent, i, direction, view, other),
        m.divided(parent, i, direction, view, other).steady(),
{
    let (c, a) = (ConstraintsView::free(), AnchorsView::free());
    lemma_free_tame();
    let k = m.new_split_idx();
    lemma_parent_of_child_live(m, parent, m.split(parent).children[i]);
    law_forked(m, ComponentView::View(view), parent, direction);
    let f = m.forked(ComponentView::View(view), parent, direction, c, a);
    assert(m.children_linked(parent.0 as int));
    lemma_one_more_leaf(f, ComponentView::View(other), k, parent);
    let g = f.grown(ComponentView::View(other), k, c, a);
    scene::lemma_swap_removed(g, parent, i);
    let h = g.with_swap_removed(parent, i);
    let rest = scene::swap_removed(g.split(parent).children, i);
    lemma_with_split_orderly(g, parent, SplitView { children: rest, ..g.split(parent) });
    tame::law_layout(h, -1, parent);
    let e = h.laid_out(parent);
    assert(g.live(NodeIdx::Split(g.roots[0])));
    assert(e.splits[0].children == h.splits[0].children);
}

/// A split that has a child is not free.
pub proof fn lemma_parent_of_child_live(m: NodesView, parent: SplitIdx, n: NodeIdx)
    requires
        m.linked(-1),
        parent.0 < m.splits.len(),
        m.split(parent).children.contains(n),
    ensures
        m.live(NodeIdx::Split(parent)),
{
    if m.free_splits.contains(parent.0) {
        let j = choose|j: int| 0 <= j < m.free_splits.len() && m.free_splits[j] == parent.0;
        assert(m.splits[m.free_splits[j] as int].children.len() == 0);
    }
}

/// A further leaf in split `k` leaves other splits as they are.
pub proof fn lemma_one_more_leaf(f: NodesView, comp: ComponentView, k: SplitIdx, parent: SplitIdx)
    requires
        f.steady(),
        f.leaves.len() < usize::MAX,
        f.live(NodeIdx::Split(k)),
        k != parent,
        parent.0 < f.splits.len(),
        f.split(k).children.len() < u16::MAX,
    ensures
        ({
            let (c, a) = (ConstraintsView::free(), AnchorsView::free());
            let g = f.grown(comp, k, c, a);
            &&& f.grown_fits(comp, k, c, a)
            &&& f.planted(comp, k, c, a).moved(g)
            &&& g.steady()
            &&& g.split(parent).children == f.split(parent).children
            &&& g.split(parent).focus == f.split(parent).focus
            &&& g.splits.len() == f.splits.len()
        }),
{
    let (c, a) = (ConstraintsView::free(), AnchorsView::free());
    lemma_free_tame();
    let planted = f.planted(comp, k, c, a);
    lemma_planted_orderly(f, comp, k, c, a);
    tree_growth::lemma_planted_linked(f, -1, comp, k, c, a);
    tame::law_layout(planted, -1, k);
    let g = planted.laid_out(k);
    let p = parent.0 as int;
    assert(g.splits[p].children == planted.splits[p].children);
    assert(g.splits[p].focus == planted.splits[p].focus);
    assert(f.live(NodeIdx::Split(f.roots[0])));
    assert(g.splits[0].children == planted.splits[0].children);
}

// ---- shrinkage

proof fn lemma_pruned_orderly(m: NodesView, rank: Seq<nat>, s: SplitIdx, depth: nat)
    requires
        m.linked(-1),
        m.ranked(rank),
        m.orderly(),
        m.live(NodeIdx::Split(s)),
    ensures
        m.pruned(s, depth).orderly(),
        m.cornered() ==> m.pruned(s, depth).cornered(),
    decreases depth,
{
    if depth > 0 && m.split(s).children.len() == 0 {
        if let Some(p) = m.split(s).parent {
            assert(m.parent_linked(s.0 as int));
            let v = m.split(p);
            let at = v.children.index_of(NodeIdx::Split(s));
            assert(m.children_linked(p.0 as int));
            tree_pruning::lemma_remove_index(v.children, NodeIdx::Split(s));
            tree_pruning::lemma_cut_linked(m, -1, rank, s, p);
            let cut = SplitView {
                children: v.children.remove(at),
                focus: divide::monus(v.focus, 1),
                ..v
            };
            assert(m.splits[p.0 as int].children.len() <= u16::MAX);
            lemma_with_split_orderly(m, p, cut);
            assert(m.cut(s, p).splits == m.with_split(p, cut).splits);
            assert(m.cut(s, p).leaves == m.with_split(p, cut).leaves);
            assert(m.cut(s, p).orderly());
            if m.cornered() {
                assert(m.cut(s, p).cornered()) by {
                    assert forall|k: int| 0 <= k < m.cut(s, p).roots.len() implies {
                        &&& m.cut(s, p).split(#[trigger] m.cut(s, p).roots[k]).rect.x == 0
                        &&& m.cut(s, p).split(m.cut(s, p).roots[k]).rect.y == 0
                    } by {
                        assert(m.live(NodeIdx::Split(m.roots[k])));
                    }
                }
            }
            lemma_parent_of_child_live(m, p, NodeIdx::Split(s));
            lemma_pruned_orderly(m.cut(s, p), rank, p, (depth - 1) as nat);
        }
    }
}

proof fn lemma_dropped_orderly(m: NodesView, parent: SplitIdx, child: NodeIdx)
    requires
        m.orderly(),
        parent.0 < m.splits.len(),
    ensures
        m.dropped(parent, child).orderly(),
{
    tree_pruning::lemma_without(m.split(parent).children, child);
    assert(m.splits[parent.0 as int].children.len() <= u16::MAX);
    lemma_with_split_orderly(m, parent, m.dropped(parent, child).split(parent));
}

/// The focus leads from the first root to a leaf.
pub proof fn law_focus(m: NodesView)
    requires
        m.steady(),
    ensures
        m.focused(NodeIdx::Split(SplitIdx(0))) matches Some(l) && m.live(NodeIdx::Leaf(l))
            && m.split(m.leaf(l).parent).children.contains(NodeIdx::Leaf(l)) && m.leaf(l).parent.0
            < m.splits.len(),
        m.sound(),
{
    let rank = choose|rank: Seq<nat>| m.ranked(rank);
    assert(m.live(NodeIdx::Split(m.roots[0])));
    tree_pruning::lemma_follow_reaches(m, -1, rank, SplitIdx(0), m.splits.len());
    tree_layout::lemma_linked_sound(m, -1);
    let l = m.focused(NodeIdx::Split(SplitIdx(0)))->0;
    assert(m.leaves[l.0 as int].parent.0 < m.splits.len());
}

/// The tree after the empty splits are gone, with something in its first root.
proof fn lemma_reflowed(
    m: NodesView,
    rank: Seq<nat>,
    views: Seq<TextView>,
    parent: SplitIdx,
    gone: NodeIdx,
)
    requires
        m.linked(-1),
        m.ranked(rank),
        m.filled_except(parent),
        m.orderly(),
        m.cornered(),
        m.roomy(),
        m.live(NodeIdx::Split(parent)),
        m.roots.len() > ROOT_OVERLAY,
        m.roots[0] == SplitIdx(0),
        gone is Leaf,
        m.live(gone),
        m.detached(gone),
    ensures
        m.reflow_fits(views, parent),
        m.reflowed(views, parent).steady(),
        m.reflowed(views, parent).live(gone),
        m.reflowed(views, parent).detached(gone),
{
    let t = m.trimmed(parent);
    tree_pruning::lemma_pruned_linked(m, -1, rank, parent, m.splits.len());
    lemma_pruned_orderly(m, rank, parent, m.splits.len());
    assert(t.wf());
    assert(t.detached(gone));
    assert(t.live(gone));
    let root = t.text_root();
    assert(t.live(NodeIdx::Split(t.roots[0])));
    let r = m.reflowed(views, parent);
    if t.bare() {
        let comp = ComponentView::View(ViewIdx(views.len() as usize));
        let (c, a) = (ConstraintsView::free(), AnchorsView::free());
        lemma_free_tame();
        tree_pruning::lemma_with_focus_linked(t, -1, root, 0);
        let reset = t.with_focus(root, 0);
        lemma_with_split_orderly(t, root, reset.split(root));
        law_grown(reset, comp, root, c, a);
        let planted = reset.planted(comp, root, c, a);
        assert(reset.detached(gone)) by {
            assert forall|i: int| 0 <= i < reset.splits.len() implies !(
            #[trigger] reset.splits[i]).children.contains(gone) by {
                let _ = t.splits[i];
            }
        }
        tree_pruning::lemma_planted_detached(reset, -1, comp, root, c, a, gone);
        tree_pruning::lemma_moved_detached(planted, r, gone);
        assert(r.splits[0].children == planted.splits[0].children);
    }
    law_focus(r);
}

/// A leaf can be taken out of a steady tree, which leaves it steady.
pub proof fn law_removed(m: NodesView, views: Seq<TextView>, parent: SplitIdx, l: LeafIdx)
    requires
        m.steady(),
        m.roomy(),
        parent.0 < m.splits.len(),
        m.split(parent).children.contains(NodeIdx::Leaf(l)),
    ensures
        m.live(NodeIdx::Split(parent)),
        m.removal_fits(views, parent, NodeIdx::Leaf(l)),
        m.removed(views, parent, NodeIdx::Leaf(l)).steady(),
{
    let child = NodeIdx::Leaf(l);
    let rank = choose|rank: Seq<nat>| m.ranked(rank);
    lemma_parent_of_child_live(m, parent, child);
    tree_pruning::lemma_only_parent_holds(m, -1, child, parent.0 as int);
    let d = m.dropped(parent, child);
    tree_pruning::lemma_dropped_linked(m, rank, parent, child);
    lemma_dropped_orderly(m, parent, child);
    assert(d.detached(child));
    assert(d.live(child));
    let laid = if d.split(parent).children.len() == 0 {
        lemma_reflowed(d, rank, views, parent, child);
        let r = d.reflowed(views, parent);
        law_focus(r);
        let p = r.leaf(r.focused(NodeIdx::Split(r.text_root()))->0).parent;
        tame::law_layout(r, -1, p);
        let laid = r.laid_out(p);
        tree_pruning::lemma_moved_detached(r, laid, child);
        assert(r.live(NodeIdx::Split(r.roots[0])));
        assert(laid.splits[0].children == r.splits[0].children);
        laid
    } else {
        assert(d.filled());
        tame::law_layout(d, -1, parent);
        let laid = d.laid_out(parent);
        tree_pruning::lemma_moved_detached(d, laid, child);
        assert(d.live(NodeIdx::Split(d.roots[0])));
        assert(laid.splits[0].children == d.splits[0].children);
        laid
    };
    tree_pruning::lemma_freed_leaf_linked(laid, l);
    let g = laid.freed(child);
    assert(g == m.removed(views, parent, child));
    assert(g.splits == laid.splits && g.leaves == laid.leaves);
    assert(g.steady());
    law_focus(g);
}

// ---- focus, what a leaf shows, the size of the screen

/// Moving the focus keeps a tree steady.
pub proof fn law_refocused(m: NodesView, s: SplitIdx, focus: int)
    requires
        m.steady(),
        s.0 < m.splits.len(),
        0 <= focus < m.split(s).children.len(),
    ensures
        m.with_focus(s, focus).steady(),
{
    tree_pruning::lemma_with_focus_linked(m, -1, s, focus);
    assert(m.splits[s.0 as int].children.len() <= u16::MAX);
    lemma_with_split_orderly(m, s, m.with_focus(s, focus).split(s));
    assert(m.live(NodeIdx::Split(m.roots[0])));
}

/// What a leaf shows does not matter to the tree.
pub proof fn law_with_component(m: NodesView, l: LeafIdx, comp: ComponentView)
    requires
        m.steady(),
        l.0 < m.leaves.len(),
    ensures
        m.with_component(l, comp).steady(),
{
    list_cmds::lemma_with_component_wf(m, l, comp);
    let g = m.with_component(l, comp);
    assert forall|i: int| 0 <= i < g.leaves.len() implies tame::tame_node(
        (#[trigger] g.leaves[i]).constraints,
        g.leaves[i].anchors,
    ) by {
        let _ = m.leaves[i];
    }
}

/// On a screen of another size a steady tree is laid out from every root.
pub proof fn law_resized(m: NodesView, width: u16, height: u16)
    requires
        m.steady(),
    ensures
        m.resized_fits(width, height),
        m.resized(width, height).steady(),
        m.moved(m.resized(width, height)),
{
    lemma_resized_each(m, m.roots, width, height);
}

proof fn lemma_resized_each(m: NodesView, roots: Seq<SplitIdx>, width: u16, height: u16)
    requires
        m.steady(),
        forall|k: int| 0 <= k < roots.len() ==> m.roots.contains(#[trigger] roots[k]),
    ensures
        m.resized_each_fits(roots, width, height),
        m.resized_each(roots, width, height).steady(),
        m.moved(m.resized_each(roots, width, height)),
    decreases roots.len(),
{
    if roots.len() == 0 {
        tree_layout::lemma_moved_refl(m);
    } else {
        let rest = roots.drop_last();
        assert forall|k: int| 0 <= k < rest.len() implies m.roots.contains(#[trigger] rest[k]) by {
            assert(m.roots.contains(roots[k]));
        }
        lemma_resized_each(m, rest, width, height);
        let g = m.resized_each(rest, width, height);
        let r = roots[roots.len() - 1];
        assert(g.roots == m.roots);
        let k = choose|k: int| 0 <= k < m.roots.len() && m.roots[k] == r;
        assert(g.roots[k] == r);
        assert(g.live(NodeIdx::Split(g.roots[k])));
        let v = g.splits[r.0 as int];
        assert(tame::tame_node(v.constraints, v.anchors));
        assert(layout::option_extent_fits(v.constraints.max_width, width as int));
        assert(layout::option_extent_fits(v.constraints.max_height, height as int));
        let sized = g.with_root_size(r, width, height);
        lemma_root_rect(v.constraints, width, height);
        assert(g.split(g.roots[k]).rect.x == 0);
        assert(sized.orderly()) by {
            assert forall|i: int| 0 <= i < sized.splits.len() implies {
                &&& tame::tame_node(
                    (#[trigger] sized.splits[i]).constraints,
                    sized.splits[i].anchors,
                )
                &&& sized.splits[i].anchors == AnchorsView::free()
                &&& sized.splits[i].children.len() <= u16::MAX
                &&& tame::boxed(sized.splits[i].rect)
            } by {
                let _ = g.splits[i];
            }
        }
        assert(sized.cornered()) by {
            assert forall|j: int| 0 <= j < sized.roots.len() implies {
                &&& sized.split(#[trigger] sized.roots[j]).rect.x == 0
                &&& sized.split(sized.roots[j]).rect.y == 0
            } by {
                assert(g.live(NodeIdx::Split(g.roots[j])));
                assert(g.split(g.roots[j]).rect.x == 0);
            }
        }
        assert(g.moved(sized));
        tree_layout::lemma_linked_sound(g, -1);
        tree_layout::lemma_moved_linked(g, sized, -1);
        tree_layout::lemma_moved_filled(g, sized);
        tame::law_layout(sized, -1, r);
        let e = sized.laid_out(r);
        tree_layout::lemma_moved_trans(m, g, sized);
        tree_layout::lemma_moved_trans(m, sized, e);
        assert(m.live(NodeIdx::Split(m.roots[0])));
        assert(e.splits[0].children == m.splits[0].children);
    }
}

/// A root takes no more than the screen has.
proof fn lemma_root_rect(c: ConstraintsView, width: u16, height: u16)
    requires
        layout::option_extent_fits(c.max_width, width as int),
        layout::option_extent_fits(c.max_height, height as int),
    ensures
        NodesView::root_rect(c, width, height).w <= width,
        NodesView::root_rect(c, width, height).h <= height,
{
    if let Some(d) = c.max_width {
        layout::lemma_extent_nonneg(d, width as int);
    }
    if let Some(d) = c.max_height {
        layout::lemma_extent_nonneg(d, height as int);
    }
}

/// A new root on a screen.
pub proof fn law_rooted(
    m: NodesView,
    c: ConstraintsView,
    width: u16,
    height: u16,
    direction: Direction,
)
    requires
        m.wf(),
        m.orderly(),
        m.cornered(),
        m.splits.len() < usize::MAX,
        tame::tame_node(c, AnchorsView::free()),
    ensures
        ({
            let g = m.rooted(c, AnchorsView::free(), width, height, direction);
            &&& g.wf()
            &&& g.orderly()
            &&& g.cornered()
        }),
{
    lemma_root_rect(c, width, height);
    let v = SplitView {
        parent: None,
        children: Seq::empty(),
        direction,
        focus: 0,
        rect: NodesView::root_rect(c, width, height),
        constraints: c,
        anchors: AnchorsView::free(),
    };
    lemma_new_split_orderly(m, v);
    tree_growth::lemma_new_split_linked(m, v);
    let n = m.with_new_split(v);
    tree_growth::lemma_root_linked(n, m.new_split_idx());
    let g = m.rooted(c, AnchorsView::free(), width, height, direction);
    assert(g.splits == n.splits && g.leaves == n.leaves);
    assert forall|k: int| 0 <= k < g.roots.len() implies {
        &&& g.split(#[trigger] g.roots[k]).rect.x == 0
        &&& g.split(g.roots[k]).rect.y == 0
    } by {
        if k < m.roots.len() {
            assert(g.roots[k] == m.roots[k]);
            assert(m.live(NodeIdx::Split(m.roots[k])));
            assert(m.split(m.roots[k]).rect.x == 0);
            if m.free_splits.len() > 0 {
                assert(m.free_splits.contains(m.free_splits[m.free_splits.len() - 1]));
            }
        }
    }
}

} // verus!
