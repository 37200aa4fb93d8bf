//! Facts on growing a tree: new leaves, new splits and new roots keep it
//! well-formed.
use vstd::prelude::*;
use crate::layout::{AnchorsView, ConstraintsView, Direction};
use crate::tree::{ComponentView, LeafIdx, LeafView, NodeIdx, NodesView, SplitIdx, SplitView};

verus! {

/// A new leaf that no split holds yet leaves the rest of the tree linked.
pub proof fn lemma_new_leaf_linked(m: NodesView, loose: int, v: LeafView)
    requires
        m.linked(loose),
        v.parent.0 < m.splits.len(),
        m.with_new_leaf(v).leaves.len() <= usize::MAX,
    ensures
        m.with_new_leaf(v).linked(loose),
        m.with_new_leaf(v).live(NodeIdx::Leaf(m.new_leaf_idx())),
        m.with_new_leaf(v).leaf(m.new_leaf_idx()) == v,
        forall|i: int|
            0 <= i < m.splits.len() ==> !(#[trigger] m.splits[i]).children.contains(
                NodeIdx::Leaf(m.new_leaf_idx()),
            ),
{
    let g = m.with_new_leaf(v);
    let l = m.new_leaf_idx();
    let rank = choose|rank: Seq<nat>| m.ranked(rank);
    assert(g.ranked(rank));
    assert forall|i: int| 0 <= i < m.splits.len() implies !(#[trigger] m.splits[i]).children.contains(
        NodeIdx::Leaf(l),
    ) by {
        assert(m.children_linked(i));
        let c = m.splits[i].children;
        assert forall|k: int| 0 <= k < c.len() implies #[trigger] c[k] != NodeIdx::Leaf(l) by {
            assert(m.live(c[k]));
            if m.free_leaves.len() > 0 {
                assert(m.free_leaves[m.free_leaves.len() - 1] == l.0);
            }
        }
    }
    if m.free_leaves.len() > 0 {
        let last = m.free_leaves.len() - 1;
        assert(m.free_leaves[last] < m.leaves.len());
        assert(!g.free_leaves.contains(l.0)) by {
            if g.free_leaves.contains(l.0) {
                let k = choose|k: int| 0 <= k < g.free_leaves.len() && g.free_leaves[k] == l.0;
                assert(m.free_leaves[k] == m.free_leaves[last]);
            }
        }
    } else {
        assert(!g.free_leaves.contains(l.0));
    }
    assert forall|x: usize| g.free_leaves.contains(x) implies m.free_leaves.contains(x) by {
        let k = choose|k: int| 0 <= k < g.free_leaves.len() && g.free_leaves[k] == x;
        assert(m.free_leaves[k] == x);
    }
    assert forall|i: int| 0 <= i < g.splits.len() implies #[trigger] g.children_linked(i) by {
        assert(m.children_linked(i));
        let c = m.splits[i].children;
        assert forall|k: int| 0 <= k < c.len() implies {
            &&& g.live(#[trigger] c[k])
            &&& g.parent_of(c[k]) == Some(SplitIdx(i as usize))
        } by {
            assert(m.live(c[k]));
            assert(c.contains(c[k]));
            if let NodeIdx::Leaf(x) = c[k] {
                assert(x != l);
            }
        }
    }
    assert forall|i: int|
        0 <= i < g.splits.len() && i != loose && !g.free_splits.contains(
            i as usize,
        ) implies #[trigger] g.parent_linked(i) by {
        assert(m.parent_linked(i));
    }
    assert forall|k: int| 0 <= k < g.roots.len() implies {
        &&& g.live(NodeIdx::Split(#[trigger] g.roots[k]))
        &&& g.split(g.roots[k]).parent is None
    } by {
        assert(m.live(NodeIdx::Split(m.roots[k])));
    }
    assert forall|k: int| 0 <= k < g.free_leaves.len() implies #[trigger] g.free_leaves[k]
        < g.leaves.len() by {
        assert(m.free_leaves[k] == g.free_leaves[k]);
    }
    assert(g.free_leaves.no_duplicates()) by {
        assert forall|a: int, b: int|
            0 <= a < g.free_leaves.len() && 0 <= b < g.free_leaves.len() && a != b implies
            g.free_leaves[a] != g.free_leaves[b] by {
            assert(m.free_leaves[a] != m.free_leaves[b]);
        }
    }
}

/// A leaf that names a split as its parent, and is not yet among its children,
/// can be hung there.
pub proof fn lemma_attach_leaf_linked(m: NodesView, loose: int, s: SplitIdx, l: LeafIdx)
    requires
        m.linked(loose),
        m.live(NodeIdx::Split(s)),
        m.live(NodeIdx::Leaf(l)),
        m.leaf(l).parent == s,
        !m.split(s).children.contains(NodeIdx::Leaf(l)),
    ensures
        m.attached(s, NodeIdx::Leaf(l)).linked(loose),
        m.filled() ==> m.attached(s, NodeIdx::Leaf(l)).filled(),
{
    let g = m.attached(s, NodeIdx::Leaf(l));
    let si = s.0 as int;
    let rank = choose|rank: Seq<nat>| m.ranked(rank);
    assert(g.ranked(rank)) by {
        assert forall|i: int, k: int|
            0 <= i < g.splits.len() && 0 <= k < g.splits[i].children.len() implies (
        #[trigger] g.splits[i].children[k] matches NodeIdx::Split(c) ==> rank[c.0 as int]
            < rank[i]) by {
            if k < m.splits[i].children.len() {
                assert(g.splits[i].children[k] == m.splits[i].children[k]);
            }
        }
    }
    assert forall|i: int| 0 <= i < g.splits.len() implies #[trigger] g.children_linked(i) by {
        assert(m.children_linked(i));
        let c = g.splits[i].children;
        assert forall|k: int| 0 <= k < c.len() implies {
            &&& g.live(#[trigger] c[k])
            &&& g.parent_of(c[k]) == Some(SplitIdx(i as usize))
        } by {
            if k < m.splits[i].children.len() {
                assert(c[k] == m.splits[i].children[k]);
                assert(m.live(m.splits[i].children[k]));
            }
        }
        if i == si {
            let old_c = m.splits[i].children;
            assert forall|a: int, b: int|
                0 <= a < c.len() && 0 <= b < c.len() && a != b implies c[a] != c[b] by {
                if a < old_c.len() && b < old_c.len() {
                    assert(old_c[a] != old_c[b]);
                } else if a < old_c.len() {
                    assert(old_c.contains(old_c[a]));
                } else if b < old_c.len() {
                    assert(old_c.contains(old_c[b]));
                }
            }
        }
    }
    assert forall|i: int|
        0 <= i < g.splits.len() && i != loose && !g.free_splits.contains(
            i as usize,
        ) implies #[trigger] g.parent_linked(i) by {
        assert(m.parent_linked(i));
        assert(g.splits[i].parent == m.splits[i].parent);
        if let Some(p) = m.splits[i].parent {
            let x = NodeIdx::Split(SplitIdx(i as usize));
            let pc = m.split(p).children;
            let k = choose|k: int| 0 <= k < pc.len() && pc[k] == x;
            assert(g.split(p).children[k] == x);
        }
    }
    assert forall|k: int| 0 <= k < g.roots.len() implies {
        &&& g.live(NodeIdx::Split(#[trigger] g.roots[k]))
        &&& g.split(g.roots[k]).parent is None
    } by {
        assert(m.live(NodeIdx::Split(m.roots[k])));
    }
    assert forall|k: int| 0 <= k < g.free_splits.len() implies {
        &&& #[trigger] g.free_splits[k] < g.splits.len()
        &&& g.splits[g.free_splits[k] as int].children.len() == 0
    } by {
        assert(m.free_splits[k] != s.0);
    }
    assert forall|i: int| 0 <= i < g.leaves.len() implies (#[trigger] g.leaves[i]).parent.0
        < g.splits.len() by {
        let _ = m.leaves[i];
    }
    if m.filled() {
        assert forall|i: int, k: int|
            0 <= i < g.splits.len() && 0 <= k < g.splits[i].children.len() implies (
        #[trigger] g.splits[i].children[k] matches NodeIdx::Split(c) ==> g.split(c).children.len()
            > 0) by {
            if k < m.splits[i].children.len() {
                assert(g.splits[i].children[k] == m.splits[i].children[k]);
                assert(m.children_linked(i));
                assert(m.live(m.splits[i].children[k]));
            }
        }
    }
}

/// A tree with a new leaf below a live split is linked, and filled if it was.
pub proof fn lemma_planted_linked(
    m: NodesView,
    loose: int,
    comp: ComponentView,
    parent: SplitIdx,
    constraints: ConstraintsView,
    anchors: AnchorsView,
)
    requires
        m.linked(loose),
        m.live(NodeIdx::Split(parent)),
        m.planted(comp, parent, constraints, anchors).leaves.len() <= usize::MAX,
    ensures
        m.planted(comp, parent, constraints, anchors).linked(loose),
        m.filled() ==> m.planted(comp, parent, constraints, anchors).filled(),
{
    let v = LeafView { parent, rect: crate::tree::no_rect(), constraints, anchors, comp };
    lemma_new_leaf_linked(m, loose, v);
    let g = m.with_new_leaf(v);
    let _ = m.splits[parent.0 as int];
    if m.filled() {
        assert(g.filled()) by {
            assert forall|i: int, k: int|
                0 <= i < g.splits.len() && 0 <= k < g.splits[i].children.len() implies (
            #[trigger] g.splits[i].children[k] matches NodeIdx::Split(c) ==> g.split(
                c,
            ).children.len() > 0) by {
                let _ = m.splits[i].children[k];
            }
        }
    }
    lemma_attach_leaf_linked(g, loose, parent, m.new_leaf_idx());
}

/// The ranks after a new split is put below all others.
pub open spec fn ranks_with_new(m: NodesView, rank: Seq<nat>) -> Seq<nat> {
    let k = m.new_split_idx().0 as int;
    if m.free_splits.len() == 0 {
        Seq::new(
            (rank.len() + 1) as nat,
            |i: int|
                if i == k {
                    0
                } else {
                    rank[i] + 1
                },
        )
    } else {
        Seq::new(
            rank.len(),
            |i: int|
                if i == k {
                    0
                } else if rank[i] < rank[k] {
                    rank[i] + 1
                } else {
                    rank[i]
                },
        )
    }
}

proof fn lemma_new_split_ranked(m: NodesView, loose: int, v: SplitView, rank: Seq<nat>)
    requires
        m.linked(loose),
        m.ranked(rank),
        v.children.len() == 0,
        m.with_new_split(v).splits.len() <= usize::MAX,
    ensures
        m.with_new_split(v).ranked(ranks_with_new(m, rank)),
        ranks_with_new(m, rank)[m.new_split_idx().0 as int] == 0,
{
    let g = m.with_new_split(v);
    let r2 = ranks_with_new(m, rank);
    let k = m.new_split_idx().0 as int;
    if m.free_splits.len() > 0 {
        assert(m.free_splits[m.free_splits.len() - 1] == k);
        assert(0 <= k < m.splits.len());
    }
    assert forall|i: int, j: int|
        0 <= i < g.splits.len() && 0 <= j < g.splits[i].children.len() implies (
    #[trigger] g.splits[i].children[j] matches NodeIdx::Split(c) ==> r2[c.0 as int] < r2[i]) by {
        assert(i != k);
        assert(g.splits[i] == m.splits[i]);
        assert(m.children_linked(i));
        let n = m.splits[i].children[j];
        assert(m.live(n));
        if let NodeIdx::Split(c) = n {
            assert(rank[c.0 as int] < rank[i]);
            assert(c.0 != k);
            assert(rank[c.0 as int] != rank[k] || m.free_splits.len() == 0);
            assert(rank[i] != rank[k] || m.free_splits.len() == 0);
        }
    }
    assert forall|i: int, j: int|
        0 <= i < r2.len() && 0 <= j < r2.len() && i != j implies #[trigger] r2[i]
        != #[trigger] r2[j] by {
        if i != k && j != k {
            assert(rank[i] != rank[j]);
            if m.free_splits.len() > 0 {
                assert(rank[i] != rank[k]);
                assert(rank[j] != rank[k]);
            }
        } else if i != k {
            assert(rank[i] != rank[k] || m.free_splits.len() == 0);
        } else {
            assert(rank[j] != rank[k] || m.free_splits.len() == 0);
        }
    }
    assert forall|i: int| 0 <= i < r2.len() implies #[trigger] r2[i] < r2.len() by {
        if i != k {
            assert(rank[i] < rank.len());
            if m.free_splits.len() > 0 {
                assert(rank[k] < rank.len());
            }
        }
    }
}

/// A new childless split leaves the rest of the tree linked; it is loose
/// itself unless it is a root.
pub proof fn lemma_new_split_linked(m: NodesView, v: SplitView)
    requires
        m.linked(-1),
        v.children.len() == 0,
        v.focus == 0,
        m.with_new_split(v).splits.len() <= usize::MAX,
    ensures
        m.with_new_split(v).linked(m.new_split_idx().0 as int),
        v.parent is None ==> m.with_new_split(v).linked(-1),
        m.with_new_split(v).live(NodeIdx::Split(m.new_split_idx())),
        m.with_new_split(v).split(m.new_split_idx()) == v,
        forall|i: int|
            0 <= i < m.splits.len() ==> !(#[trigger] m.splits[i]).children.contains(
                NodeIdx::Split(m.new_split_idx()),
            ),
        m.filled() ==> m.with_new_split(v).filled(),
{
    let g = m.with_new_split(v);
    let s = m.new_split_idx();
    let k = s.0 as int;
    let rank = choose|rank: Seq<nat>| m.ranked(rank);
    lemma_new_split_ranked(m, -1, v, rank);
    assert forall|i: int| 0 <= i < m.splits.len() implies !(#[trigger] m.splits[i]).children.contains(
        NodeIdx::Split(s),
    ) by {
        assert(m.children_linked(i));
        let c = m.splits[i].children;
        assert forall|j: int| 0 <= j < c.len() implies #[trigger] c[j] != NodeIdx::Split(s) by {
            assert(m.live(c[j]));
            if m.free_splits.len() > 0 {
                assert(m.free_splits[m.free_splits.len() - 1] == s.0);
            }
        }
    }
    if m.free_splits.len() > 0 {
        let last = m.free_splits.len() - 1;
        assert(m.free_splits[last] < m.splits.len());
        assert(!g.free_splits.contains(s.0)) by {
            if g.free_splits.contains(s.0) {
                let j = choose|j: int| 0 <= j < g.free_splits.len() && g.free_splits[j] == s.0;
                assert(m.free_splits[j] == m.free_splits[last]);
            }
        }
    } else {
        assert(!g.free_splits.contains(s.0)) by {
            if g.free_splits.contains(s.0) {
                let j = choose|j: int| 0 <= j < g.free_splits.len() && g.free_splits[j] == s.0;
                assert(m.free_splits[j] < m.splits.len());
            }
        }
    }
    assert forall|x: usize| g.free_splits.contains(x) <==> m.free_splits.contains(x) && x != s.0 by {
        if g.free_splits.contains(x) {
            let j = choose|j: int| 0 <= j < g.free_splits.len() && g.free_splits[j] == x;
            assert(m.free_splits[j] == x);
        }
        if m.free_splits.contains(x) && x != s.0 {
            let j = choose|j: int| 0 <= j < m.free_splits.len() && m.free_splits[j] == x;
            if m.free_splits.len() > 0 {
                assert(j != m.free_splits.len() - 1);
            }
            assert(g.free_splits[j] == x);
        }
    }
    assert forall|i: int| 0 <= i < g.splits.len() implies #[trigger] g.children_linked(i) by {
        if i != k {
            assert(m.children_linked(i));
            let c = m.splits[i].children;
            assert(g.splits[i] == m.splits[i]);
            assert forall|j: int| 0 <= j < c.len() implies {
                &&& g.live(#[trigger] c[j])
                &&& g.parent_of(c[j]) == Some(SplitIdx(i as usize))
            } by {
                assert(m.live(c[j]));
                assert(c.contains(c[j]));
            }
        } else {
            assert(g.splits[i] == v);
        }
    }
    assert forall|i: int|
        0 <= i < g.splits.len() && i != k && !g.free_splits.contains(
            i as usize,
        ) implies #[trigger] g.parent_linked(i) by {
        assert(g.splits[i] == m.splits[i]);
        assert(!m.free_splits.contains(i as usize));
        assert(m.parent_linked(i));
        if let Some(p) = m.splits[i].parent {
            if p == s {
                assert(m.free_splits.len() > 0);
                assert(m.free_splits[m.free_splits.len() - 1] == s.0);
                assert(m.split(p).children.len() == 0);
            }
            assert(g.split(p) == m.split(p));
        }
    }
    assert forall|j: int| 0 <= j < g.roots.len() implies {
        &&& g.live(NodeIdx::Split(#[trigger] g.roots[j]))
        &&& g.split(g.roots[j]).parent is None
    } by {
        assert(m.live(NodeIdx::Split(m.roots[j])));
        if m.free_splits.len() > 0 {
            assert(m.free_splits[m.free_splits.len() - 1] == s.0);
        }
        assert(m.roots[j].0 != k);
    }
    assert forall|j: int| 0 <= j < g.free_splits.len() implies {
        &&& #[trigger] g.free_splits[j] < g.splits.len()
        &&& g.splits[g.free_splits[j] as int].children.len() == 0
    } by {
        assert(m.free_splits[j] == g.free_splits[j]);
        assert(g.free_splits.contains(g.free_splits[j]));
    }
    assert(g.free_splits.no_duplicates()) by {
        assert forall|a: int, b: int|
            0 <= a < g.free_splits.len() && 0 <= b < g.free_splits.len() && a != b implies
            g.free_splits[a] != g.free_splits[b] by {
            assert(m.free_splits[a] != m.free_splits[b]);
        }
    }
    assert forall|i: int| 0 <= i < g.leaves.len() implies (#[trigger] g.leaves[i]).parent.0
        < g.splits.len() by {
        let _ = m.leaves[i];
    }
    if v.parent is None {
        assert(g.parent_linked(k));
    }
    if m.filled() {
        assert forall|i: int, j: int|
            0 <= i < g.splits.len() && 0 <= j < g.splits[i].children.len() implies (
        #[trigger] g.splits[i].children[j] matches NodeIdx::Split(c) ==> g.split(c).children.len()
            > 0) by {
            assert(i != k);
            assert(g.splits[i] == m.splits[i]);
            let c = m.splits[i].children;
            assert(c.contains(c[j]));
            assert(m.children_linked(i));
            assert(m.live(c[j]));
        }
    }
}

/// A childless split that names a parent can be hung below it. From then on
/// the tree has no loose split.
pub proof fn lemma_root_linked(m: NodesView, s: SplitIdx)
    requires
        m.linked(-1),
        m.live(NodeIdx::Split(s)),
        m.split(s).parent is None,
    ensures
        (NodesView { roots: m.roots.push(s), ..m }).linked(-1),
        m.filled() ==> (NodesView { roots: m.roots.push(s), ..m }).filled(),
{
    let g = NodesView { roots: m.roots.push(s), ..m };
    let rank = choose|rank: Seq<nat>| m.ranked(rank);
    assert(g.ranked(rank)) by {
        assert forall|i: int, k: int|
            0 <= i < g.splits.len() && 0 <= k < g.splits[i].children.len() implies (
        #[trigger] g.splits[i].children[k] matches NodeIdx::Split(c) ==> rank[c.0 as int]
            < rank[i]) by {
            let _ = m.splits[i].children[k];
        }
    }
    assert forall|i: int| 0 <= i < g.splits.len() implies #[trigger] g.children_linked(i) by {
        assert(m.children_linked(i));
        let c = m.splits[i].children;
        assert forall|k: int| 0 <= k < c.len() implies {
            &&& g.live(#[trigger] c[k])
            &&& g.parent_of(c[k]) == Some(SplitIdx(i as usize))
        } by {
            assert(m.live(c[k]));
        }
    }
    assert forall|i: int|
        0 <= i < g.splits.len() && !g.free_splits.contains(
            i as usize,
        ) implies #[trigger] g.parent_linked(i) by {
        assert(m.parent_linked(i));
    }
    assert forall|k: int| 0 <= k < g.roots.len() implies {
        &&& g.live(NodeIdx::Split(#[trigger] g.roots[k]))
        &&& g.split(g.roots[k]).parent is None
    } by {
        if k < m.roots.len() {
            assert(m.live(NodeIdx::Split(m.roots[k])));
        }
    }
    if m.filled() {
        assert forall|i: int, k: int|
            0 <= i < g.splits.len() && 0 <= k < g.splits[i].children.len() implies (
        #[trigger] g.splits[i].children[k] matches NodeIdx::Split(c) ==> g.split(c).children.len()
            > 0) by {
            let _ = m.splits[i].children[k];
        }
    }
}

pub proof fn lemma_branched_linked(
    m: NodesView,
    parent: SplitIdx,
    direction: Direction,
    constraints: ConstraintsView,
    anchors: AnchorsView,
)
    requires
        m.linked(-1),
        m.live(NodeIdx::Split(parent)),
        m.branched(parent, direction, constraints, anchors).splits.len() <= usize::MAX,
    ensures
        m.branched(parent, direction, constraints, anchors).linked(-1),
        m.branched(parent, direction, constraints, anchors).live(
            NodeIdx::Split(m.new_split_idx()),
        ),
        m.branched(parent, direction, constraints, anchors).live(NodeIdx::Split(parent)),
        m.branched(parent, direction, constraints, anchors).split(
            m.new_split_idx(),
        ).children.len() == 0,
        m.new_split_idx() != parent,
{
    let v = SplitView {
        parent: Some(parent),
        children: Seq::empty(),
        direction,
        focus: 0,
        rect: crate::tree::no_rect(),
        constraints,
        anchors,
    };
    let h = m.with_new_split(v);
    let s = m.new_split_idx();
    let k = s.0 as int;
    let pi = parent.0 as int;
    lemma_new_split_linked(m, v);
    if m.free_splits.len() > 0 {
        assert(m.free_splits[m.free_splits.len() - 1] == s.0);
    }
    assert(s != parent);
    assert(h.split(parent) == m.split(parent));
    let g = h.attached(parent, NodeIdx::Split(s));
    assert(g == m.branched(parent, direction, constraints, anchors));
    let rank = choose|rank: Seq<nat>| m.ranked(rank);
    lemma_new_split_ranked(m, -1, v, rank);
    let r2 = ranks_with_new(m, rank);
    assert(g.ranked(r2)) by {
        assert forall|i: int, j: int|
            0 <= i < g.splits.len() && 0 <= j < g.splits[i].children.len() implies (
        #[trigger] g.splits[i].children[j] matches NodeIdx::Split(c) ==> r2[c.0 as int]
            < r2[i]) by {
            if j < h.splits[i].children.len() {
                assert(g.splits[i].children[j] == h.splits[i].children[j]);
            } else {
                assert(i == pi);
                assert(r2[pi] != r2[k]);
            }
        }
    }
    assert forall|i: int| 0 <= i < g.splits.len() implies #[trigger] g.children_linked(i) by {
        assert(h.children_linked(i));
        let c = g.splits[i].children;
        let old_c = h.splits[i].children;
        assert forall|j: int| 0 <= j < c.len() implies {
            &&& g.live(#[trigger] c[j])
            &&& g.parent_of(c[j]) == Some(SplitIdx(i as usize))
        } by {
            if j < old_c.len() {
                assert(c[j] == old_c[j]);
                assert(h.live(old_c[j]));
            }
        }
        if i == pi {
            assert(old_c == m.splits[i].children);
            assert forall|a: int, b: int|
                0 <= a < c.len() && 0 <= b < c.len() && a != b implies c[a] != c[b] by {
                if a < old_c.len() && b < old_c.len() {
                    assert(old_c[a] != old_c[b]);
                } else if a < old_c.len() {
                    assert(m.splits[i].children.contains(old_c[a]));
                } else if b < old_c.len() {
                    assert(m.splits[i].children.contains(old_c[b]));
                }
            }
        }
    }
    assert forall|i: int|
        0 <= i < g.splits.len() && !g.free_splits.contains(
            i as usize,
        ) implies #[trigger] g.parent_linked(i) by {
        assert(g.splits[i].parent == h.splits[i].parent);
        if i == k {
            let pc = g.split(parent).children;
            assert(pc[pc.len() - 1] == NodeIdx::Split(s));
        } else {
            assert(h.parent_linked(i));
            if let Some(p) = h.splits[i].parent {
                let x = NodeIdx::Split(SplitIdx(i as usize));
                let pc = h.split(p).children;
                let j = choose|j: int| 0 <= j < pc.len() && pc[j] == x;
                assert(g.split(p).children[j] == x);
            }
        }
    }
    assert forall|j: int| 0 <= j < g.roots.len() implies {
        &&& g.live(NodeIdx::Split(#[trigger] g.roots[j]))
        &&& g.split(g.roots[j]).parent is None
    } by {
        assert(h.live(NodeIdx::Split(h.roots[j])));
    }
    assert forall|j: int| 0 <= j < g.free_splits.len() implies {
        &&& #[trigger] g.free_splits[j] < g.splits.len()
        &&& g.splits[g.free_splits[j] as int].children.len() == 0
    } by {
        assert(h.free_splits[j] != parent.0) by {
            assert(m.free_splits[j] == h.free_splits[j]);
        }
    }
    assert forall|i: int| 0 <= i < g.leaves.len() implies (#[trigger] g.leaves[i]).parent.0
        < g.splits.len() by {
        let _ = h.leaves[i];
    }
}

/// A new split with a leaf of its own keeps a filled tree filled.
pub proof fn lemma_forked_filled(
    m: NodesView,
    comp: ComponentView,
    parent: SplitIdx,
    direction: Direction,
    constraints: ConstraintsView,
    anchors: AnchorsView,
)
    requires
        m.wf(),
        m.live(NodeIdx::Split(parent)),
        m.branched(parent, direction, constraints, anchors).splits.len() <= usize::MAX,
        m.branched(parent, direction, constraints, anchors).planted(
            comp,
            m.new_split_idx(),
            ConstraintsView::free(),
            AnchorsView::free(),
        ).leaves.len() <= usize::MAX,
    ensures
        m.branched(parent, direction, constraints, anchors).planted(
            comp,
            m.new_split_idx(),
            ConstraintsView::free(),
            AnchorsView::free(),
        ).filled(),
{
    lemma_branched_linked(m, parent, direction, constraints, anchors);
    let b = m.branched(parent, direction, constraints, anchors);
    let s = m.new_split_idx();
    let g = b.planted(comp, s, ConstraintsView::free(), AnchorsView::free());
    assert forall|i: int, j: int|
        0 <= i < g.splits.len() && 0 <= j < g.splits[i].children.len() implies (
    #[trigger] g.splits[i].children[j] matches NodeIdx::Split(c) ==> g.split(c).children.len()
        > 0) by {
        if let NodeIdx::Split(c) = g.splits[i].children[j] {
            if c == s {
                assert(g.split(s).children.len() == 1);
            } else {
                assert(i != s.0) by {
                    if i == s.0 {
                        assert(g.splits[i].children.len() == 1);
                    }
                }
                assert(g.splits[i] == b.splits[i]);
                if m.free_splits.len() > 0 {
                    assert(m.free_splits[m.free_splits.len() - 1] == s.0);
                }
                assert(i < m.splits.len());
                if j < m.splits[i].children.len() {
                    assert(g.splits[i].children[j] == m.splits[i].children[j]);
                    assert(m.children_linked(i));
                    assert(m.live(m.splits[i].children[j]));
                    assert(m.split(c).children.len() > 0);
                    assert(g.split(c).children.len() >= m.split(c).children.len());
                }
            }
        }
    }
}

} // verus!
