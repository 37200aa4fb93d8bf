//! Facts on laying out a tree: only rectangles change, and a depth beyond the
//! height of the tree makes no difference.
use vstd::prelude::*;
use crate::layout::Rect;
use crate::tree::{NodeIdx, NodesView, SplitIdx};

verus! {

impl NodesView {
    /// All children are nodes of the tree.
    pub open spec fn sound(self) -> bool {
        forall|i: int, k: int|
            0 <= i < self.splits.len() && 0 <= k < self.splits[i].children.len() ==> self.has(
                #[trigger] self.splits[i].children[k],
            )
    }

    /// All nodes of a list are nodes of the tree.
    pub open spec fn has_all(self, nodes: Seq<NodeIdx>) -> bool {
        forall|k: int| 0 <= k < nodes.len() ==> self.has(#[trigger] nodes[k])
    }
}

pub proof fn lemma_linked_sound(m: NodesView, loose: int)
    requires
        m.linked(loose),
    ensures
        m.sound(),
{
    assert forall|i: int, k: int|
        0 <= i < m.splits.len() && 0 <= k < m.splits[i].children.len() implies m.has(
        #[trigger] m.splits[i].children[k],
    ) by {
        assert(m.children_linked(i));
    }
}

pub proof fn lemma_moved_refl(m: NodesView)
    ensures
        m.moved(m),
{
}

pub proof fn lemma_moved_trans(a: NodesView, b: NodesView, c: NodesView)
    requires
        a.moved(b),
        b.moved(c),
    ensures
        a.moved(c),
{
    assert forall|i: int| 0 <= i < a.splits.len() implies (#[trigger] c.splits[i]) == (
    crate::tree::SplitView { rect: c.splits[i].rect, ..a.splits[i] }) by {
        let _ = b.splits[i];
    }
    assert forall|i: int| 0 <= i < a.leaves.len() implies (#[trigger] c.leaves[i]) == (
    crate::tree::LeafView { rect: c.leaves[i].rect, ..a.leaves[i] }) by {
        let _ = b.leaves[i];
    }
}

pub proof fn lemma_moved_ranked(a: NodesView, b: NodesView, rank: Seq<nat>)
    requires
        a.moved(b),
        a.ranked(rank),
    ensures
        b.ranked(rank),
{
    assert forall|i: int, k: int|
        0 <= i < b.splits.len() && 0 <= k < b.splits[i].children.len() implies (
    #[trigger] b.splits[i].children[k] matches NodeIdx::Split(c) ==> rank[c.0 as int]
        < rank[i]) by {
        assert(b.splits[i].children == a.splits[i].children);
        let _ = a.splits[i].children[k];
    }
}

pub proof fn lemma_moved_sound(a: NodesView, b: NodesView)
    requires
        a.moved(b),
        a.sound(),
    ensures
        b.sound(),
{
    assert forall|i: int, k: int|
        0 <= i < b.splits.len() && 0 <= k < b.splits[i].children.len() implies b.has(
        #[trigger] b.splits[i].children[k],
    ) by {
        assert(b.splits[i].children == a.splits[i].children);
        let _ = a.splits[i].children[k];
    }
}

pub proof fn lemma_moved_linked(a: NodesView, b: NodesView, loose: int)
    requires
        a.moved(b),
        a.linked(loose),
    ensures
        b.linked(loose),
{
    let rank = choose|rank: Seq<nat>| a.ranked(rank);
    lemma_moved_ranked(a, b, rank);
    assert forall|i: int| 0 <= i < b.splits.len() implies #[trigger] b.children_linked(i) by {
        assert(a.children_linked(i));
        assert(b.splits[i].children == a.splits[i].children);
        assert forall|k: int| 0 <= k < b.splits[i].children.len() implies {
            &&& b.live(#[trigger] b.splits[i].children[k])
            &&& b.parent_of(b.splits[i].children[k]) == Some(SplitIdx(i as usize))
        } by {
            let n = a.splits[i].children[k];
            assert(a.live(n));
            match n {
                NodeIdx::Leaf(l) => {
                    assert(b.leaves[l.0 as int].parent == a.leaves[l.0 as int].parent);
                },
                NodeIdx::Split(s) => {
                    assert(b.splits[s.0 as int].parent == a.splits[s.0 as int].parent);
                },
            }
        }
    }
    assert forall|i: int|
        0 <= i < b.splits.len() && i != loose && !b.free_splits.contains(
            i as usize,
        ) implies #[trigger] b.parent_linked(i) by {
        assert(a.parent_linked(i));
        assert(b.splits[i].parent == a.splits[i].parent);
        if let Some(p) = a.splits[i].parent {
            assert(b.splits[p.0 as int].children == a.splits[p.0 as int].children);
        }
    }
    assert forall|i: int| 0 <= i < b.leaves.len() implies (#[trigger] b.leaves[i]).parent.0
        < b.splits.len() by {
        assert(b.leaves[i].parent == a.leaves[i].parent);
    }
    assert forall|k: int| 0 <= k < b.roots.len() implies {
        &&& b.live(NodeIdx::Split(#[trigger] b.roots[k]))
        &&& b.split(b.roots[k]).parent is None
    } by {
        assert(a.live(NodeIdx::Split(a.roots[k])));
        let r = a.roots[k].0 as int;
        assert(b.splits[r].parent == a.splits[r].parent);
    }
    assert forall|k: int| 0 <= k < b.free_splits.len() implies {
        &&& #[trigger] b.free_splits[k] < b.splits.len()
        &&& b.splits[b.free_splits[k] as int].children.len() == 0
    } by {
        let i = a.free_splits[k] as int;
        assert(b.splits[i].children == a.splits[i].children);
    }
}

pub proof fn lemma_moved_filled(a: NodesView, b: NodesView)
    requires
        a.moved(b),
        a.sound(),
        a.filled(),
    ensures
        b.filled(),
{
    assert forall|i: int, k: int|
        0 <= i < b.splits.len() && 0 <= k < b.splits[i].children.len() implies (
    #[trigger] b.splits[i].children[k] matches NodeIdx::Split(c) ==> b.split(c).children.len()
        > 0) by {
        assert(b.splits[i].children == a.splits[i].children);
        let n = a.splits[i].children[k];
        assert(a.has(n));
        if let NodeIdx::Split(c) = n {
            assert(b.splits[c.0 as int].children == a.splits[c.0 as int].children);
        }
    }
}

pub proof fn lemma_with_rects_moved(m: NodesView, nodes: Seq<NodeIdx>, rects: Seq<Rect>)
    requires
        m.has_all(nodes),
    ensures
        m.moved(m.with_rects(nodes, rects)),
    decreases nodes.len(),
{
    if nodes.len() > 0 {
        let rest = nodes.drop_last();
        assert forall|k: int| 0 <= k < rest.len() implies m.has(#[trigger] rest[k]) by {
            let _ = nodes[k];
        }
        lemma_with_rects_moved(m, rest, rects);
        let n = nodes[nodes.len() - 1];
        assert(m.has(n));
    }
}

/// Laying out the tree below a split changes nothing but rectangles.
pub proof fn lemma_relayout_moved(m: NodesView, s: SplitIdx, depth: nat)
    requires
        m.sound(),
        s.0 < m.splits.len(),
    ensures
        m.moved(m.relayout(s, depth)),
    decreases depth, 0nat,
{
    if depth > 0 {
        let children = m.split(s).children;
        assert forall|k: int| 0 <= k < children.len() implies m.has(#[trigger] children[k]) by {
            let _ = m.splits[s.0 as int].children[k];
        }
        let placed = m.with_rects(children, m.child_rects(s));
        lemma_with_rects_moved(m, children, m.child_rects(s));
        lemma_moved_sound(m, placed);
        lemma_relayout_each_moved(placed, children, (depth - 1) as nat);
        lemma_moved_trans(m, placed, m.relayout(s, depth));
    }
}

pub proof fn lemma_relayout_each_moved(m: NodesView, nodes: Seq<NodeIdx>, depth: nat)
    requires
        m.sound(),
        m.has_all(nodes),
    ensures
        m.moved(m.relayout_each(nodes, depth)),
    decreases depth, nodes.len(),
{
    if nodes.len() > 0 {
        let rest = nodes.drop_last();
        assert forall|k: int| 0 <= k < rest.len() implies m.has(#[trigger] rest[k]) by {
            let _ = nodes[k];
        }
        lemma_relayout_each_moved(m, rest, depth);
        let m1 = m.relayout_each(rest, depth);
        lemma_moved_sound(m, m1);
        let n = nodes[nodes.len() - 1];
        assert(m.has(n));
        if let NodeIdx::Split(c) = n {
            lemma_relayout_moved(m1, c, depth);
            lemma_moved_trans(m, m1, m1.relayout(c, depth));
        }
    }
}

/// Two depths that both exceed the rank of a split lay it out alike.
pub proof fn lemma_relayout_depth(m: NodesView, s: SplitIdx, rank: Seq<nat>, d1: nat, d2: nat)
    requires
        m.sound(),
        m.ranked(rank),
        s.0 < m.splits.len(),
        rank[s.0 as int] < d1,
        rank[s.0 as int] < d2,
    ensures
        m.relayout(s, d1) == m.relayout(s, d2),
        m.relayout_fits(s, d1) == m.relayout_fits(s, d2),
    decreases d1, 0nat,
{
    let children = m.split(s).children;
    let placed = m.with_rects(children, m.child_rects(s));
    assert forall|k: int| 0 <= k < children.len() implies m.has(#[trigger] children[k]) by {
        let _ = m.splits[s.0 as int].children[k];
    }
    lemma_with_rects_moved(m, children, m.child_rects(s));
    lemma_moved_sound(m, placed);
    lemma_moved_ranked(m, placed, rank);
    assert forall|k: int| 0 <= k < children.len() implies (
    #[trigger] children[k] matches NodeIdx::Split(c) ==> rank[c.0 as int] < rank[s.0 as int]) by {
        let _ = m.splits[s.0 as int].children[k];
    }
    lemma_relayout_each_depth(
        placed,
        children,
        rank,
        rank[s.0 as int],
        (d1 - 1) as nat,
        (d2 - 1) as nat,
    );
}

pub proof fn lemma_relayout_each_depth(
    m: NodesView,
    nodes: Seq<NodeIdx>,
    rank: Seq<nat>,
    below: nat,
    d1: nat,
    d2: nat,
)
    requires
        m.sound(),
        m.ranked(rank),
        m.has_all(nodes),
        forall|k: int|
            0 <= k < nodes.len() ==> (#[trigger] nodes[k] matches NodeIdx::Split(c) ==> rank[c.0 as int]
                < below),
        below <= d1,
        below <= d2,
    ensures
        m.relayout_each(nodes, d1) == m.relayout_each(nodes, d2),
        m.relayout_each_fits(nodes, d1) == m.relayout_each_fits(nodes, d2),
    decreases d1, nodes.len(),
{
    if nodes.len() > 0 {
        let rest = nodes.drop_last();
        assert forall|k: int| 0 <= k < rest.len() implies m.has(#[trigger] rest[k]) by {
            let _ = nodes[k];
        }
        assert forall|k: int| 0 <= k < rest.len() implies (
        #[trigger] rest[k] matches NodeIdx::Split(c) ==> rank[c.0 as int] < below) by {
            let _ = nodes[k];
        }
        lemma_relayout_each_depth(m, rest, rank, below, d1, d2);
        lemma_relayout_each_moved(m, rest, d1);
        let m1 = m.relayout_each(rest, d1);
        lemma_moved_sound(m, m1);
        lemma_moved_ranked(m, m1, rank);
        let n = nodes[nodes.len() - 1];
        assert(m.has(n));
        if let NodeIdx::Split(c) = n {
            lemma_relayout_depth(m1, c, rank, d1, d2);
        }
    }
}

} // verus!
