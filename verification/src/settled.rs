//! What laying out a tree leaves behind: each child stands where its split
//! puts it, nothing else has moved, and no trace is left of what was before.
use vstd::prelude::*;
use crate::divide;
use crate::layout;
use crate::layout::{AnchorsView, Rect};
use crate::tame;
use crate::tree::{LeafIdx, LeafView, NodeIdx, NodesView, Side, SplitIdx, SplitView};
use crate::tree_layout;

verus! {

impl NodesView {
    /// The way up from `n` leads to split `s` in at most so many steps.
    pub open spec fn climbs(self, n: NodeIdx, s: SplitIdx, steps: nat) -> bool
        decreases steps,
    {
        steps > 0 && (self.parent_of(n) matches Some(p) && {
            &&& p.0 < self.splits.len()
            &&& self.split(p).children.contains(n)
            &&& p == s || self.climbs(NodeIdx::Split(p), s, (steps - 1) as nat)
        })
    }

    /// Node `n` stands somewhere below split `s`.
    pub open spec fn stands_below(self, n: NodeIdx, s: SplitIdx) -> bool {
        exists|steps: nat| self.climbs(n, s, steps)
    }

    /// The children of a split stand where it puts them.
    pub open spec fn in_place(self, s: SplitIdx) -> bool {
        forall|k: int|
            0 <= k < self.split(s).children.len() ==> self.rect_of(
                #[trigger] self.split(s).children[k],
            ) == self.child_rects(s)[k]
    }

    /// So do the children of all splits from `s` downwards.
    pub open spec fn settled(self, s: SplitIdx) -> bool {
        forall|q: SplitIdx|
            q.0 < self.splits.len() && (q == s || self.stands_below(NodeIdx::Split(q), s))
                ==> #[trigger] self.in_place(q)
    }

    /// The right edge of the last child of a split is within `u16`.
    pub open spec fn ends_in_time(self, s: SplitIdx) -> bool {
        let r = self.rect_of(self.split(s).children.last());
        r.x + r.w <= u16::MAX
    }
}

// ---- below

proof fn lemma_child_climbs(m: NodesView, loose: int, s: SplitIdx, k: int)
    requires
        m.linked(loose),
        s.0 < m.splits.len(),
        0 <= k < m.split(s).children.len(),
    ensures
        m.climbs(m.split(s).children[k], s, 1),
        m.stands_below(m.split(s).children[k], s),
        m.has(m.split(s).children[k]),
{
    assert(m.children_linked(s.0 as int));
    assert(m.live(m.splits[s.0 as int].children[k]));
    assert(m.split(s).children.contains(m.split(s).children[k]));
    assert(m.climbs(m.split(s).children[k], s, 1));
}

/// What stands below a split that stands below another stands below that one.
proof fn lemma_climbs_on(m: NodesView, n: NodeIdx, c: SplitIdx, s: SplitIdx, i: nat, j: nat)
    requires
        m.climbs(n, c, i),
        m.climbs(NodeIdx::Split(c), s, j),
    ensures
        m.climbs(n, s, i + j),
        m.stands_below(n, s),
    decreases i,
{
    let p = m.parent_of(n)->0;
    if p == c {
        lemma_climbs_more(m, NodeIdx::Split(p), s, j, (i + j - 1) as nat);
    } else {
        lemma_climbs_on(m, NodeIdx::Split(p), c, s, (i - 1) as nat, j);
    }
    assert(m.climbs(n, s, i + j));
}

proof fn lemma_climbs_more(m: NodesView, n: NodeIdx, s: SplitIdx, i: nat, j: nat)
    requires
        m.climbs(n, s, i),
        i <= j,
    ensures
        m.climbs(n, s, j),
    decreases i,
{
    let p = m.parent_of(n)->0;
    if p != s {
        lemma_climbs_more(m, NodeIdx::Split(p), s, (i - 1) as nat, (j - 1) as nat);
    }
}

pub proof fn lemma_below_trans(m: NodesView, n: NodeIdx, c: SplitIdx, s: SplitIdx)
    requires
        m.stands_below(n, c),
        m.stands_below(NodeIdx::Split(c), s),
    ensures
        m.stands_below(n, s),
{
    let i = choose|i: nat| m.climbs(n, c, i);
    let j = choose|j: nat| m.climbs(NodeIdx::Split(c), s, j);
    lemma_climbs_on(m, n, c, s, i, j);
}

/// Who stands below whom does not depend on rectangles.
proof fn lemma_moved_climbs(a: NodesView, b: NodesView, n: NodeIdx, s: SplitIdx, steps: nat)
    requires
        a.moved(b),
        a.has(n),
    ensures
        a.climbs(n, s, steps) == b.climbs(n, s, steps),
    decreases steps,
{
    tame::lemma_moved_parent(a, b, n);
    if steps > 0 {
        if let Some(p) = a.parent_of(n) {
            if p.0 < a.splits.len() {
                assert(b.splits[p.0 as int].children == a.splits[p.0 as int].children);
                lemma_moved_climbs(a, b, NodeIdx::Split(p), s, (steps - 1) as nat);
            }
        }
    }
}

pub proof fn lemma_moved_below(a: NodesView, b: NodesView, n: NodeIdx, s: SplitIdx)
    requires
        a.moved(b),
        a.has(n),
    ensures
        a.stands_below(n, s) == b.stands_below(n, s),
{
    if a.stands_below(n, s) {
        let i = choose|i: nat| a.climbs(n, s, i);
        lemma_moved_climbs(a, b, n, s, i);
        assert(b.climbs(n, s, i));
    }
    if b.stands_below(n, s) {
        let i = choose|i: nat| b.climbs(n, s, i);
        lemma_moved_climbs(a, b, n, s, i);
        assert(a.climbs(n, s, i));
    }
}

proof fn lemma_climbs_rank(m: NodesView, rank: Seq<nat>, q: SplitIdx, s: SplitIdx, steps: nat)
    requires
        m.ranked(rank),
        q.0 < m.splits.len(),
        m.climbs(NodeIdx::Split(q), s, steps),
    ensures
        s.0 < m.splits.len(),
        rank[q.0 as int] < rank[s.0 as int],
    decreases steps,
{
    let p = m.parent_of(NodeIdx::Split(q))->0;
    let c = m.splits[p.0 as int].children;
    let k = choose|k: int| 0 <= k < c.len() && c[k] == NodeIdx::Split(q);
    assert(m.splits[p.0 as int].children[k] == NodeIdx::Split(q));
    if p != s {
        lemma_climbs_rank(m, rank, p, s, (steps - 1) as nat);
    }
}

/// No split stands below itself.
pub proof fn lemma_not_below_itself(m: NodesView, rank: Seq<nat>, s: SplitIdx)
    requires
        m.ranked(rank),
        s.0 < m.splits.len(),
    ensures
        !m.stands_below(NodeIdx::Split(s), s),
{
    if m.stands_below(NodeIdx::Split(s), s) {
        let i = choose|i: nat| m.climbs(NodeIdx::Split(s), s, i);
        lemma_climbs_rank(m, rank, s, s, i);
    }
}

/// A split does not stand below one that stands below it.
proof fn lemma_not_below_child(m: NodesView, rank: Seq<nat>, s: SplitIdx, c: SplitIdx)
    requires
        m.ranked(rank),
        s.0 < m.splits.len(),
        m.stands_below(NodeIdx::Split(c), s),
    ensures
        !m.stands_below(NodeIdx::Split(s), c),
{
    if m.stands_below(NodeIdx::Split(s), c) {
        lemma_below_trans(m, NodeIdx::Split(s), c, s);
        lemma_not_below_itself(m, rank, s);
    }
}

/// No child of a split stands below another one.
proof fn lemma_siblings(m: NodesView, loose: int, rank: Seq<nat>, s: SplitIdx, k: int, c: SplitIdx)
    requires
        m.linked(loose),
        m.ranked(rank),
        s.0 < m.splits.len(),
        0 <= k < m.split(s).children.len(),
        m.split(s).children.contains(NodeIdx::Split(c)),
    ensures
        !m.stands_below(m.split(s).children[k], c),
{
    let n = m.split(s).children[k];
    if m.stands_below(n, c) {
        let j = choose|j: int|
            0 <= j < m.split(s).children.len() && m.split(s).children[j] == NodeIdx::Split(c);
        lemma_child_climbs(m, loose, s, j);
        lemma_child_climbs(m, loose, s, k);
        let i = choose|i: nat| m.climbs(n, c, i);
        assert(m.children_linked(s.0 as int));
        assert(m.parent_of(m.splits[s.0 as int].children[k]) == Some(s));
        if s == c {
            lemma_not_below_itself(m, rank, s);
        } else {
            assert(m.climbs(NodeIdx::Split(s), c, (i - 1) as nat));
            lemma_not_below_child(m, rank, s, c);
        }
    }
}

/// Of two splits that a node stands below, one stands below the other.
proof fn lemma_one_way_up(m: NodesView, n: NodeIdx, a: SplitIdx, b: SplitIdx, i: nat, j: nat)
    requires
        m.climbs(n, a, i),
        m.climbs(n, b, j),
    ensures
        a == b || m.stands_below(NodeIdx::Split(a), b) || m.stands_below(NodeIdx::Split(b), a),
    decreases i,
{
    let p = m.parent_of(n)->0;
    if p == a {
        if p != b {
            assert(m.climbs(NodeIdx::Split(a), b, (j - 1) as nat));
        }
    } else if p == b {
        assert(m.climbs(NodeIdx::Split(b), a, (i - 1) as nat));
    } else {
        lemma_one_way_up(m, NodeIdx::Split(p), a, b, (i - 1) as nat, (j - 1) as nat);
    }
}

/// What stands below a split stands among its children or below one of them.
proof fn lemma_below_children(m: NodesView, loose: int, n: NodeIdx, s: SplitIdx, steps: nat) -> (k: int)
    requires
        m.linked(loose),
        s.0 < m.splits.len(),
        m.climbs(n, s, steps),
    ensures
        0 <= k < m.split(s).children.len(),
        m.split(s).children[k] == n || (m.split(s).children[k] matches NodeIdx::Split(c)
            && m.stands_below(n, c)),
    decreases steps,
{
    let p = m.parent_of(n)->0;
    if p == s {
        choose|k: int| 0 <= k < m.split(s).children.len() && m.split(s).children[k] == n
    } else {
        let k = lemma_below_children(m, loose, NodeIdx::Split(p), s, (steps - 1) as nat);
        let c = m.split(s).children[k];
        assert(m.climbs(n, p, 1));
        if c != NodeIdx::Split(p) {
            lemma_below_trans(m, n, p, c->Split_0);
        }
        k
    }
}

// ---- what moves

/// Only what stands below a split moves when the split is laid out.
proof fn lemma_relayout_frame(
    m: NodesView,
    loose: int,
    s: SplitIdx,
    depth: nat,
    n: NodeIdx,
)
    requires
        m.linked(loose),
        s.0 < m.splits.len(),
        m.has(n),
        !m.stands_below(n, s),
    ensures
        m.relayout(s, depth).rect_of(n) == m.rect_of(n),
    decreases depth, 0nat,
{
    if depth > 0 {
        let children = m.split(s).children;
        let rects = m.child_rects(s);
        assert forall|k: int| 0 <= k < children.len() implies m.has(#[trigger] children[k]) by {
            lemma_child_climbs(m, loose, s, k);
        }
        if children.contains(n) {
            let k = choose|k: int| 0 <= k < children.len() && children[k] == n;
            lemma_child_climbs(m, loose, s, k);
        }
        let placed = m.with_rects(children, rects);
        tree_layout::lemma_with_rects_moved(m, children, rects);
        tame::lemma_with_rects_other(m, children, rects, n);
        tree_layout::lemma_moved_linked(m, placed, loose);
        assert forall|k: int| 0 <= k < children.len() implies (
        #[trigger] children[k] matches NodeIdx::Split(c) ==> !placed.stands_below(n, c)) by {
            if let NodeIdx::Split(c) = children[k] {
                lemma_child_climbs(m, loose, s, k);
                lemma_moved_below(m, placed, n, c);
                if m.stands_below(n, c) {
                    lemma_below_trans(m, n, c, s);
                }
            }
        }
        lemma_relayout_each_frame(placed, loose, children, (depth - 1) as nat, n);
    }
}

proof fn lemma_relayout_each_frame(
    m: NodesView,
    loose: int,
    nodes: Seq<NodeIdx>,
    depth: nat,
    n: NodeIdx,
)
    requires
        m.linked(loose),
        m.has_all(nodes),
        m.has(n),
        forall|k: int|
            0 <= k < nodes.len() ==> (#[trigger] nodes[k] matches NodeIdx::Split(c)
                ==> !m.stands_below(n, c)),
    ensures
        m.relayout_each(nodes, depth).rect_of(n) == m.rect_of(n),
    decreases depth, nodes.len() + 1,
{
    if nodes.len() > 0 {
        let rest = nodes.drop_last();
        assert forall|j: int| 0 <= j < rest.len() implies m.has(#[trigger] rest[j]) by {
            let _ = nodes[j];
        }
        assert forall|k: int| 0 <= k < rest.len() implies (
        #[trigger] rest[k] matches NodeIdx::Split(c) ==> !m.stands_below(n, c)) by {
            let _ = nodes[k];
        }
        lemma_relayout_each_frame(m, loose, rest, depth, n);
        tree_layout::lemma_linked_sound(m, loose);
        tree_layout::lemma_relayout_each_moved(m, rest, depth);
        let mid = m.relayout_each(rest, depth);
        let last = nodes[nodes.len() - 1];
        assert(m.has(last));
        if let NodeIdx::Split(c) = last {
            tree_layout::lemma_moved_linked(m, mid, loose);
            lemma_moved_below(m, mid, n, c);
            lemma_relayout_frame(mid, loose, c, depth, n);
        }
    }
}

/// Laying out a split moves only what stands below it, and of that only the
/// rectangles: the split itself and everything else stay as they are.
pub proof fn law_only_below_moves(m: NodesView, loose: int, s: SplitIdx, n: NodeIdx)
    requires
        m.linked(loose),
        s.0 < m.splits.len(),
        m.has(n),
    ensures
        m.moved(m.laid_out(s)),
        m.laid_out(s).split(s) == m.split(s),
        !m.stands_below(n, s) ==> m.laid_out(s).rect_of(n) == m.rect_of(n),
{
    let rank = choose|rank: Seq<nat>| m.ranked(rank);
    tree_layout::lemma_linked_sound(m, loose);
    tree_layout::lemma_relayout_moved(m, s, m.splits.len());
    lemma_not_below_itself(m, rank, s);
    lemma_relayout_frame(m, loose, s, m.splits.len(), NodeIdx::Split(s));
    if !m.stands_below(n, s) {
        lemma_relayout_frame(m, loose, s, m.splits.len(), n);
    }
    let g = m.laid_out(s);
    assert(g.splits[s.0 as int].rect == m.splits[s.0 as int].rect);
}

// ---- settled trees

/// A split in the same place divides itself in the same way.
pub proof fn lemma_child_rects_same(a: NodesView, b: NodesView, loose: int, s: SplitIdx)
    requires
        a.linked(loose),
        a.moved(b),
        s.0 < a.splits.len(),
        b.split(s).rect == a.split(s).rect,
    ensures
        b.least_sizes(s) == a.least_sizes(s),
        b.greatest_sizes(s) == a.greatest_sizes(s),
        b.anchors_across(s) == a.anchors_across(s),
        b.anchors_along(s) == a.anchors_along(s),
        b.child_rects(s) == a.child_rects(s),
        b.child_rects(s).len() == a.split(s).children.len(),
        b.split(s).children == a.split(s).children,
{
    let i = s.0 as int;
    assert(b.splits[i].children == a.splits[i].children);
    assert(b.splits[i].direction == a.splits[i].direction);
    assert forall|k: int| 0 <= k < a.split(s).children.len() implies {
        let n = #[trigger] a.split(s).children[k];
        &&& b.constraints_of(n) == a.constraints_of(n)
        &&& b.anchors_of(n) == a.anchors_of(n)
    } by {
        lemma_child_climbs(a, loose, s, k);
        tame::lemma_moved_parent(a, b, a.split(s).children[k]);
    }
    assert(b.least_sizes(s) =~= a.least_sizes(s));
    assert(b.greatest_sizes(s) =~= a.greatest_sizes(s));
    assert(b.anchors_across(s) =~= a.anchors_across(s));
    assert(b.anchors_along(s) =~= a.anchors_along(s));
}

/// A settled split stays settled while nothing from it downwards moves.
proof fn lemma_settled_kept(a: NodesView, b: NodesView, loose: int, s: SplitIdx)
    requires
        a.linked(loose),
        a.moved(b),
        s.0 < a.splits.len(),
        a.settled(s),
        forall|n: NodeIdx|
            a.has(n) && (n == NodeIdx::Split(s) || a.stands_below(n, s)) ==> #[trigger] b.rect_of(n)
                == a.rect_of(n),
    ensures
        b.settled(s),
{
    assert forall|q: SplitIdx|
        q.0 < b.splits.len() && (q == s || b.stands_below(
            NodeIdx::Split(q),
            s,
        )) implies #[trigger] b.in_place(q) by {
        let n = NodeIdx::Split(q);
        lemma_moved_below(a, b, n, s);
        assert(a.in_place(q));
        assert(b.rect_of(n) == a.rect_of(n));
        lemma_child_rects_same(a, b, loose, q);
        assert forall|k: int| 0 <= k < b.split(q).children.len() implies b.rect_of(
            #[trigger] b.split(q).children[k],
        ) == b.child_rects(q)[k] by {
            lemma_child_climbs(a, loose, q, k);
            let c = a.split(q).children[k];
            if q != s {
                lemma_below_trans(a, c, q, s);
            }
            assert(b.rect_of(c) == a.rect_of(c));
        }
    }
}

/// A split that was laid out is settled.
proof fn lemma_settles(m: NodesView, loose: int, rank: Seq<nat>, s: SplitIdx, depth: nat)
    requires
        m.linked(loose),
        m.ranked(rank),
        s.0 < m.splits.len(),
        rank[s.0 as int] < depth,
    ensures
        m.relayout(s, depth).settled(s),
    decreases depth, 0nat,
{
    let si = s.0 as int;
    let children = m.split(s).children;
    let rects = m.child_rects(s);
    let below = (depth - 1) as nat;
    assert(m.children_linked(si));
    tree_layout::lemma_linked_sound(m, loose);
    assert forall|k: int| 0 <= k < children.len() implies m.has(#[trigger] children[k]) by {
        lemma_child_climbs(m, loose, s, k);
    }
    let placed = m.with_rects(children, rects);
    tree_layout::lemma_with_rects_moved(m, children, rects);
    tree_layout::lemma_moved_linked(m, placed, loose);
    tree_layout::lemma_moved_ranked(m, placed, rank);
    tree_layout::lemma_moved_sound(m, placed);
    assert(placed.splits[si].children == children);
    assert forall|k: int| 0 <= k < children.len() implies (
    #[trigger] children[k] matches NodeIdx::Split(c) ==> rank[c.0 as int] < below) by {
        assert(m.splits[si].children[k] == children[k]);
    }
    lemma_settles_each(placed, loose, rank, s, children.len() as int, below);
    assert(children.take(children.len() as int) =~= children);
    let e = placed.relayout_each(children, below);
    tree_layout::lemma_relayout_each_moved(placed, children, below);
    tree_layout::lemma_moved_trans(m, placed, e);
    tree_layout::lemma_moved_linked(m, e, loose);
    let top = NodeIdx::Split(s);
    assert forall|k: int| 0 <= k < children.len() implies (
    #[trigger] children[k] matches NodeIdx::Split(c) ==> !placed.stands_below(top, c)) by {
        if let NodeIdx::Split(c) = children[k] {
            lemma_child_climbs(placed, loose, s, k);
            lemma_not_below_child(placed, rank, s, c);
        }
    }
    lemma_relayout_each_frame(placed, loose, children, below, top);
    if children.contains(top) {
        let k = choose|k: int| 0 <= k < children.len() && children[k] == top;
        assert(m.splits[si].children[k] == top);
    }
    tame::lemma_with_rects_other(m, children, rects, top);
    assert(e.rect_of(top) == m.rect_of(top));
    lemma_child_rects_same(m, e, loose, s);
    assert forall|k: int| 0 <= k < children.len() implies e.rect_of(#[trigger] children[k])
        == rects[k] by {
        let n = children[k];
        assert forall|j: int| 0 <= j < children.len() implies (
        #[trigger] children[j] matches NodeIdx::Split(c) ==> !placed.stands_below(n, c)) by {
            if let NodeIdx::Split(c) = children[j] {
                assert(placed.split(s).children[j] == NodeIdx::Split(c));
                lemma_siblings(placed, loose, rank, s, k, c);
            }
        }
        lemma_relayout_each_frame(placed, loose, children, below, n);
        tame::lemma_with_rects_at(m, children, rects, k);
    }
    assert(e.in_place(s));
    assert forall|q: SplitIdx|
        q.0 < e.splits.len() && (q == s || e.stands_below(
            NodeIdx::Split(q),
            s,
        )) implies #[trigger] e.in_place(q) by {
        if q != s {
            let i = choose|i: nat| e.climbs(NodeIdx::Split(q), s, i);
            let k = lemma_below_children(e, loose, NodeIdx::Split(q), s, i);
            assert(e.split(s).children[k] == children[k]);
            if let NodeIdx::Split(c) = children[k] {
                assert(e.settled(c));
            }
        }
    }
}

/// So are its first `n` children, where they are splits.
proof fn lemma_settles_each(
    m: NodesView,
    loose: int,
    rank: Seq<nat>,
    s: SplitIdx,
    n: int,
    depth: nat,
)
    requires
        m.linked(loose),
        m.ranked(rank),
        s.0 < m.splits.len(),
        0 <= n <= m.split(s).children.len(),
        forall|k: int|
            0 <= k < m.split(s).children.len() ==> (
            #[trigger] m.split(s).children[k] matches NodeIdx::Split(c) ==> rank[c.0 as int]
                < depth),
    ensures
        forall|k: int|
            0 <= k < n ==> (#[trigger] m.split(s).children[k] matches NodeIdx::Split(c)
                ==> m.relayout_each(m.split(s).children.take(n), depth).settled(c)),
    decreases depth, n + 1,
{
    if n > 0 {
        let all = m.split(s).children;
        let nodes = all.take(n);
        let rest = all.take(n - 1);
        assert(nodes.drop_last() =~= rest);
        assert(nodes.last() == all[n - 1]);
        lemma_settles_each(m, loose, rank, s, n - 1, depth);
        tree_layout::lemma_linked_sound(m, loose);
        assert forall|j: int| 0 <= j < rest.len() implies m.has(#[trigger] rest[j]) by {
            lemma_child_climbs(m, loose, s, j);
            assert(rest[j] == all[j]);
        }
        tree_layout::lemma_relayout_each_moved(m, rest, depth);
        let mid = m.relayout_each(rest, depth);
        tree_layout::lemma_moved_linked(m, mid, loose);
        tree_layout::lemma_moved_ranked(m, mid, rank);
        tree_layout::lemma_linked_sound(mid, loose);
        assert(mid.splits[s.0 as int].children == all);
        assert(m.children_linked(s.0 as int));
        if let NodeIdx::Split(c) = all[n - 1] {
            lemma_child_climbs(mid, loose, s, n - 1);
            let e = mid.relayout(c, depth);
            lemma_settles(mid, loose, rank, c, depth);
            tree_layout::lemma_relayout_moved(mid, c, depth);
            assert forall|k: int| 0 <= k < n implies (#[trigger] all[k] matches NodeIdx::Split(d)
                ==> e.settled(d)) by {
                if let NodeIdx::Split(d) = all[k] {
                    if k < n - 1 {
                        assert(all[k] != all[n - 1]);
                        lemma_child_climbs(mid, loose, s, k);
                        lemma_apart_kept(mid, loose, rank, s, c, d, depth);
                    }
                }
            }
        }
    }
}

/// Laying out a child of a split leaves another one settled.
proof fn lemma_apart_kept(
    m: NodesView,
    loose: int,
    rank: Seq<nat>,
    s: SplitIdx,
    c: SplitIdx,
    d: SplitIdx,
    depth: nat,
)
    requires
        m.linked(loose),
        m.ranked(rank),
        s.0 < m.splits.len(),
        m.split(s).children.contains(NodeIdx::Split(c)),
        m.split(s).children.contains(NodeIdx::Split(d)),
        c != d,
        m.settled(d),
    ensures
        m.relayout(c, depth).settled(d),
{
    let all = m.split(s).children;
    let i = choose|i: int| 0 <= i < all.len() && all[i] == NodeIdx::Split(c);
    let j = choose|j: int| 0 <= j < all.len() && all[j] == NodeIdx::Split(d);
    lemma_child_climbs(m, loose, s, i);
    lemma_child_climbs(m, loose, s, j);
    lemma_siblings(m, loose, rank, s, i, d);
    lemma_siblings(m, loose, rank, s, j, c);
    lemma_parted(m, loose, c, d, depth);
}

/// Laying out one of two splits, neither of which stands below the other,
/// leaves the other settled.
proof fn lemma_parted(m: NodesView, loose: int, c: SplitIdx, d: SplitIdx, depth: nat)
    requires
        m.linked(loose),
        c.0 < m.splits.len(),
        d.0 < m.splits.len(),
        c != d,
        !m.stands_below(NodeIdx::Split(c), d),
        !m.stands_below(NodeIdx::Split(d), c),
        m.settled(d),
    ensures
        m.relayout(c, depth).settled(d),
{
    let e = m.relayout(c, depth);
    tree_layout::lemma_linked_sound(m, loose);
    tree_layout::lemma_relayout_moved(m, c, depth);
    assert forall|n: NodeIdx|
        m.has(n) && (n == NodeIdx::Split(d) || m.stands_below(n, d)) implies #[trigger] e.rect_of(n)
        == m.rect_of(n) by {
        if m.stands_below(n, c) && n != NodeIdx::Split(d) {
            let i = choose|i: nat| m.climbs(n, c, i);
            let j = choose|j: nat| m.climbs(n, d, j);
            lemma_one_way_up(m, n, c, d, i, j);
        }
        lemma_relayout_frame(m, loose, c, depth, n);
    }
    lemma_settled_kept(m, e, loose, d);
}

/// Rectangles that are there already change nothing.
proof fn lemma_with_rects_same(m: NodesView, nodes: Seq<NodeIdx>, rects: Seq<Rect>)
    requires
        m.has_all(nodes),
        forall|k: int| 0 <= k < nodes.len() ==> m.rect_of(#[trigger] nodes[k]) == rects[k],
    ensures
        m.with_rects(nodes, rects) == m,
    decreases nodes.len(),
{
    if nodes.len() > 0 {
        let rest = nodes.drop_last();
        assert forall|k: int| 0 <= k < rest.len() implies m.has(#[trigger] rest[k]) && m.rect_of(
            rest[k],
        ) == rects[k] by {
            let _ = nodes[k];
        }
        lemma_with_rects_same(m, rest, rects);
        let n = nodes[nodes.len() - 1];
        assert(m.has(n));
        assert(m.with_rect(n, m.rect_of(n)) =~= m);
    }
}

/// A settled split stays as it is when it is laid out.
proof fn lemma_settled_stays(m: NodesView, loose: int, s: SplitIdx, depth: nat)
    requires
        m.linked(loose),
        s.0 < m.splits.len(),
        m.settled(s),
    ensures
        m.relayout(s, depth) == m,
    decreases depth, 0nat,
{
    if depth > 0 {
        let children = m.split(s).children;
        assert forall|k: int| 0 <= k < children.len() implies m.has(#[trigger] children[k]) by {
            lemma_child_climbs(m, loose, s, k);
        }
        assert(m.in_place(s));
        lemma_with_rects_same(m, children, m.child_rects(s));
        assert forall|k: int| 0 <= k < children.len() implies (
        #[trigger] children[k] matches NodeIdx::Split(c) ==> m.settled(c)) by {
            if let NodeIdx::Split(c) = children[k] {
                lemma_child_climbs(m, loose, s, k);
                assert forall|q: SplitIdx|
                    q.0 < m.splits.len() && (q == c || m.stands_below(
                        NodeIdx::Split(q),
                        c,
                    )) implies #[trigger] m.in_place(q) by {
                    if q != c {
                        lemma_below_trans(m, NodeIdx::Split(q), c, s);
                    }
                }
            }
        }
        lemma_settled_each_stays(m, loose, children, (depth - 1) as nat);
    }
}

proof fn lemma_settled_each_stays(m: NodesView, loose: int, nodes: Seq<NodeIdx>, depth: nat)
    requires
        m.linked(loose),
        m.has_all(nodes),
        forall|k: int|
            0 <= k < nodes.len() ==> (#[trigger] nodes[k] matches NodeIdx::Split(c) ==> m.settled(
                c,
            )),
    ensures
        m.relayout_each(nodes, depth) == m,
    decreases depth, nodes.len() + 1,
{
    if nodes.len() > 0 {
        let rest = nodes.drop_last();
        assert forall|k: int| 0 <= k < rest.len() implies m.has(#[trigger] rest[k]) && (
        rest[k] matches NodeIdx::Split(c) ==> m.settled(c)) by {
            let _ = nodes[k];
        }
        lemma_settled_each_stays(m, loose, rest, depth);
        let last = nodes[nodes.len() - 1];
        assert(m.has(last));
        if let NodeIdx::Split(c) = last {
            lemma_settled_stays(m, loose, c, depth);
        }
    }
}

proof fn lemma_moved_back(a: NodesView, b: NodesView)
    requires
        a.moved(b),
    ensures
        b.moved(a),
{
    assert forall|i: int| 0 <= i < b.splits.len() implies (#[trigger] a.splits[i]) == (SplitView {
        rect: a.splits[i].rect,
        ..b.splits[i]
    }) by {
        let _ = b.splits[i];
    }
    assert forall|i: int| 0 <= i < b.leaves.len() implies (#[trigger] a.leaves[i]) == (LeafView {
        rect: a.leaves[i].rect,
        ..b.leaves[i]
    }) by {
        let _ = b.leaves[i];
    }
}

/// Whether a split can be divided depends on no rectangle but its own.
proof fn lemma_division_fits_same(a: NodesView, b: NodesView, loose: int, s: SplitIdx)
    requires
        a.linked(loose),
        a.moved(b),
        s.0 < a.splits.len(),
        b.split(s).rect == a.split(s).rect,
        a.division_fits(s),
    ensures
        b.division_fits(s),
{
    lemma_child_rects_same(a, b, loose, s);
    assert(b.splits[s.0 as int].direction == a.splits[s.0 as int].direction);
    assert forall|k: int| 0 <= k < b.split(s).children.len() implies b.asks_fit(
        s,
        #[trigger] b.split(s).children[k],
    ) by {
        let n = a.split(s).children[k];
        lemma_child_climbs(a, loose, s, k);
        tame::lemma_moved_parent(a, b, n);
        assert(a.asks_fit(s, n));
    }
}

/// Nor does it matter to the splits below where they stood before.
proof fn lemma_fits_same(
    a: NodesView,
    b: NodesView,
    loose: int,
    rank: Seq<nat>,
    s: SplitIdx,
    depth: nat,
)
    requires
        a.linked(loose),
        a.ranked(rank),
        a.moved(b),
        s.0 < a.splits.len(),
        b.split(s).rect == a.split(s).rect,
        a.relayout_fits(s, depth),
    ensures
        b.relayout_fits(s, depth),
    decreases depth, 0nat,
{
    if depth > 0 {
        let children = a.split(s).children;
        let rects = a.child_rects(s);
        lemma_division_fits_same(a, b, loose, s);
        lemma_child_rects_same(a, b, loose, s);
        assert(a.children_linked(s.0 as int));
        assert forall|k: int| 0 <= k < children.len() implies a.has(#[trigger] children[k])
            && b.has(children[k]) by {
            lemma_child_climbs(a, loose, s, k);
        }
        let pa = a.with_rects(children, rects);
        let pb = b.with_rects(children, rects);
        tree_layout::lemma_with_rects_moved(a, children, rects);
        tree_layout::lemma_with_rects_moved(b, children, rects);
        lemma_moved_back(a, pa);
        tree_layout::lemma_moved_trans(pa, a, b);
        tree_layout::lemma_moved_trans(pa, b, pb);
        tree_layout::lemma_moved_linked(a, pa, loose);
        tree_layout::lemma_moved_ranked(a, pa, rank);
        assert(pa.splits[s.0 as int].children == children);
        assert forall|k: int| 0 <= k < children.len() implies pa.rect_of(#[trigger] children[k])
            == pb.rect_of(children[k]) by {
            tame::lemma_with_rects_at(a, children, rects, k);
            tame::lemma_with_rects_at(b, children, rects, k);
        }
        let n = children.len() as int;
        assert(children.take(n) =~= children);
        lemma_fits_same_each(pa, pb, loose, rank, s, n, (depth - 1) as nat);
    }
}

proof fn lemma_fits_same_each(
    a: NodesView,
    b: NodesView,
    loose: int,
    rank: Seq<nat>,
    s: SplitIdx,
    n: int,
    depth: nat,
)
    requires
        a.linked(loose),
        a.ranked(rank),
        a.moved(b),
        s.0 < a.splits.len(),
        0 <= n <= a.split(s).children.len(),
        forall|k: int|
            0 <= k < a.split(s).children.len() ==> a.rect_of(#[trigger] a.split(s).children[k])
                == b.rect_of(a.split(s).children[k]),
        a.relayout_each_fits(a.split(s).children.take(n), depth),
    ensures
        b.relayout_each_fits(a.split(s).children.take(n), depth),
    decreases depth, n + 1,
{
    if n > 0 {
        let all = a.split(s).children;
        let nodes = all.take(n);
        let rest = all.take(n - 1);
        assert(nodes.drop_last() =~= rest);
        assert(nodes.last() == all[n - 1]);
        lemma_fits_same_each(a, b, loose, rank, s, n - 1, depth);
        tree_layout::lemma_moved_linked(a, b, loose);
        tree_layout::lemma_moved_ranked(a, b, rank);
        tree_layout::lemma_linked_sound(a, loose);
        tree_layout::lemma_linked_sound(b, loose);
        assert forall|j: int| 0 <= j < rest.len() implies a.has(#[trigger] rest[j]) && b.has(
            rest[j],
        ) by {
            lemma_child_climbs(a, loose, s, j);
            assert(rest[j] == all[j]);
        }
        let ga = a.relayout_each(rest, depth);
        let gb = b.relayout_each(rest, depth);
        tree_layout::lemma_relayout_each_moved(a, rest, depth);
        tree_layout::lemma_relayout_each_moved(b, rest, depth);
        if let NodeIdx::Split(c) = all[n - 1] {
            let node = all[n - 1];
            lemma_child_climbs(a, loose, s, n - 1);
            assert(b.splits[s.0 as int].children == all);
            assert forall|k: int| 0 <= k < rest.len() implies (
            #[trigger] rest[k] matches NodeIdx::Split(d) ==> !a.stands_below(node, d)
                && !b.stands_below(node, d)) by {
                if let NodeIdx::Split(d) = rest[k] {
                    assert(all[k] == NodeIdx::Split(d));
                    lemma_siblings(a, loose, rank, s, n - 1, d);
                    lemma_moved_below(a, b, node, d);
                }
            }
            lemma_relayout_each_frame(a, loose, rest, depth, node);
            lemma_relayout_each_frame(b, loose, rest, depth, node);
            lemma_moved_back(a, ga);
            tree_layout::lemma_moved_trans(ga, a, b);
            tree_layout::lemma_moved_trans(ga, b, gb);
            tree_layout::lemma_moved_linked(a, ga, loose);
            tree_layout::lemma_moved_ranked(a, ga, rank);
            lemma_fits_same(ga, gb, loose, rank, c, depth);
        }
    }
}

/// Laying out a split a second time can be done wherever it could be done
/// once, and changes nothing.
pub proof fn law_laid_out_once(m: NodesView, loose: int, s: SplitIdx)
    requires
        m.linked(loose),
        s.0 < m.splits.len(),
    ensures
        m.laid_out(s).settled(s),
        m.laid_out(s).laid_out(s) == m.laid_out(s),
        m.layout_fits(s) ==> m.laid_out(s).layout_fits(s),
{
    let rank = choose|rank: Seq<nat>| m.ranked(rank);
    let e = m.laid_out(s);
    lemma_settles(m, loose, rank, s, m.splits.len());
    tree_layout::lemma_linked_sound(m, loose);
    tree_layout::lemma_relayout_moved(m, s, m.splits.len());
    tree_layout::lemma_moved_linked(m, e, loose);
    lemma_settled_stays(e, loose, s, e.splits.len());
    if m.layout_fits(s) {
        lemma_not_below_itself(m, rank, s);
        lemma_relayout_frame(m, loose, s, m.splits.len(), NodeIdx::Split(s));
        lemma_fits_same(m, e, loose, rank, s, m.splits.len());
    }
}

// ---- anchors

/// An anchor counts from its parent: whichever way the split is divided, a
/// child with an anchor for `x` or `y` stands that far from the split's own
/// `x` or `y`.
pub proof fn law_anchored(m: NodesView, loose: int, s: SplitIdx, k: int)
    requires
        m.linked(loose),
        s.0 < m.splits.len(),
        m.layout_fits(s),
        0 <= k < m.split(s).children.len(),
    ensures
        ({
            let n = m.split(s).children[k];
            let r = m.laid_out(s).rect_of(n);
            let outer = m.split(s).rect;
            &&& layout::option_offset(m.anchors_of(n).x, outer.w as int) matches Some(o) ==> r.x
                == outer.x + o
            &&& layout::option_offset(m.anchors_of(n).y, outer.h as int) matches Some(o) ==> r.y
                == outer.y + o
        }),
{
    let v = m.split(s);
    let n = v.children[k];
    let across = m.anchors_across(s);
    let along = m.anchors_along(s);
    let slots = divide::divided(
        m.least_sizes(s),
        m.greatest_sizes(s),
        divide::main_extent(v.direction, v.rect),
    );
    let g = m.laid_out(s);
    law_laid_out_once(m, loose, s);
    law_only_below_moves(m, loose, s, NodeIdx::Split(s));
    lemma_child_rects_same(m, g, loose, s);
    assert(g.in_place(s));
    assert(g.split(s).children[k] == n);
    assert(m.asks_fit(s, n));
    lemma_sizes_nonneg(m, s);
    assert(divide::placed_fits(v.direction, v.rect, slots, across, along, k));
    assert(m.child_rects(s)[k] == divide::placed(v.direction, v.rect, slots, across, along, k));
    if let Some(terms) = m.anchors_of(n).x {
        layout::lemma_offset_nonneg(terms, v.rect.w as int);
    }
    if let Some(terms) = m.anchors_of(n).y {
        layout::lemma_offset_nonneg(terms, v.rect.h as int);
    }
}

// ---- screens of another size

/// Node `n` is none of the roots of a list and stands below none of them.
pub open spec fn outside(m: NodesView, roots: Seq<SplitIdx>, n: NodeIdx) -> bool {
    forall|k: int|
        0 <= k < roots.len() ==> {
            &&& n != NodeIdx::Split(#[trigger] roots[k])
            &&& !m.stands_below(n, roots[k])
        }
}

/// The rectangle of a root on a screen: its place stays.
pub open spec fn root_place(m: NodesView, r: SplitIdx, width: u16, height: u16) -> Rect {
    Rect {
        x: m.split(r).rect.x,
        y: m.split(r).rect.y,
        ..NodesView::root_rect(m.split(r).constraints, width, height)
    }
}

/// Where two trees differ in their rectangles alone, a split that is settled
/// in both and has the same place in both gives the same places to all below.
proof fn lemma_same_below(
    a: NodesView,
    b: NodesView,
    loose: int,
    s: SplitIdx,
    n: NodeIdx,
    steps: nat,
)
    requires
        a.linked(loose),
        a.moved(b),
        s.0 < a.splits.len(),
        a.settled(s),
        b.settled(s),
        a.split(s).rect == b.split(s).rect,
        a.climbs(n, s, steps),
    ensures
        a.rect_of(n) == b.rect_of(n),
    decreases steps,
{
    let p = a.parent_of(n)->0;
    if p != s {
        let q = NodeIdx::Split(p);
        lemma_same_below(a, b, loose, s, q, (steps - 1) as nat);
        assert(a.climbs(q, s, (steps - 1) as nat));
        lemma_moved_below(a, b, q, s);
    }
    assert(a.split(p).rect == b.split(p).rect);
    assert(a.in_place(p));
    assert(b.in_place(p));
    lemma_child_rects_same(a, b, loose, p);
    let k = choose|k: int| 0 <= k < a.split(p).children.len() && a.split(p).children[k] == n;
    assert(b.split(p).children[k] == n);
}

/// A root stands below nothing.
proof fn lemma_root_not_below(m: NodesView, loose: int, r: SplitIdx, s: SplitIdx)
    requires
        m.linked(loose),
        m.roots.contains(r),
    ensures
        r.0 < m.splits.len(),
        m.split(r).parent is None,
        !m.stands_below(NodeIdx::Split(r), s),
{
    let k = choose|k: int| 0 <= k < m.roots.len() && m.roots[k] == r;
    assert(m.live(NodeIdx::Split(m.roots[k])));
    if m.stands_below(NodeIdx::Split(r), s) {
        let i = choose|i: nat| m.climbs(NodeIdx::Split(r), s, i);
        assert(m.parent_of(NodeIdx::Split(r)) is Some);
    }
}

/// One root takes its size and is laid out: other roots stay settled.
proof fn lemma_root_resized(g: NodesView, r: SplitIdx, width: u16, height: u16)
    requires
        g.linked(-1),
        g.roots.contains(r),
    ensures
        ({
            let e = g.with_root_size(r, width, height).laid_out(r);
            &&& g.moved(e)
            &&& e.settled(r)
            &&& e.split(r).rect == root_place(g, r, width, height)
            &&& forall|d: SplitIdx|
                g.roots.contains(d) && d != r && g.settled(d) ==> #[trigger] e.settled(d)
            &&& forall|n: NodeIdx|
                g.has(n) && n != NodeIdx::Split(r) && !g.stands_below(n, r)
                    ==> #[trigger] e.rect_of(n) == g.rect_of(n)
        }),
{
    let sized = g.with_root_size(r, width, height);
    let e = sized.laid_out(r);
    let top = NodeIdx::Split(r);
    lemma_root_not_below(g, -1, r, r);
    assert(g.moved(sized));
    tree_layout::lemma_moved_linked(g, sized, -1);
    law_laid_out_once(sized, -1, r);
    law_only_below_moves(sized, -1, r, top);
    tree_layout::lemma_moved_trans(g, sized, e);
    assert forall|n: NodeIdx|
        g.has(n) && n != top && !g.stands_below(n, r) implies #[trigger] e.rect_of(n)
        == g.rect_of(n) by {
        lemma_moved_below(g, sized, n, r);
        law_only_below_moves(sized, -1, r, n);
    }
    assert forall|d: SplitIdx|
        g.roots.contains(d) && d != r && g.settled(d) implies #[trigger] e.settled(d) by {
        lemma_root_not_below(g, -1, d, r);
        lemma_root_not_below(g, -1, r, d);
        lemma_settled_kept(g, sized, -1, d);
        lemma_moved_below(g, sized, NodeIdx::Split(d), r);
        lemma_moved_below(g, sized, top, d);
        lemma_parted(sized, -1, r, d, sized.splits.len());
    }
}

/// What the roots of a list come to on a screen.
proof fn lemma_resized_places(m: NodesView, roots: Seq<SplitIdx>, width: u16, height: u16)
    requires
        m.linked(-1),
        forall|k: int| 0 <= k < roots.len() ==> m.roots.contains(#[trigger] roots[k]),
    ensures
        ({
            let e = m.resized_each(roots, width, height);
            &&& m.moved(e)
            &&& forall|k: int| 0 <= k < roots.len() ==> e.settled(#[trigger] roots[k])
            &&& forall|k: int|
                0 <= k < roots.len() ==> e.split(#[trigger] roots[k]).rect == root_place(
                    m,
                    roots[k],
                    width,
                    height,
                )
            &&& forall|n: NodeIdx|
                m.has(n) && outside(m, roots, n) ==> #[trigger] e.rect_of(n) == m.rect_of(n)
        }),
    decreases roots.len(),
{
    if roots.len() == 0 {
        tree_layout::lemma_moved_refl(m);
    } else {
        let rest = roots.drop_last();
        let r = roots.last();
        let top = NodeIdx::Split(r);
        assert(m.roots.contains(roots[roots.len() - 1]));
        assert forall|k: int| 0 <= k < rest.len() implies m.roots.contains(#[trigger] rest[k]) by {
            assert(m.roots.contains(roots[k]));
        }
        lemma_resized_places(m, rest, width, height);
        let g = m.resized_each(rest, width, height);
        let e = m.resized_each(roots, width, height);
        tree_layout::lemma_moved_linked(m, g, -1);
        lemma_root_resized(g, r, width, height);
        tree_layout::lemma_moved_trans(m, g, e);
        lemma_root_not_below(m, -1, r, r);
        assert(g.splits[r.0 as int].constraints == m.splits[r.0 as int].constraints);
        assert(root_place(g, r, width, height) == root_place(m, r, width, height)) by {
            if rest.contains(r) {
                let j = choose|j: int| 0 <= j < rest.len() && rest[j] == r;
                assert(g.split(rest[j]).rect == root_place(m, rest[j], width, height));
            } else {
                assert forall|k: int| 0 <= k < rest.len() implies {
                    &&& top != NodeIdx::Split(#[trigger] rest[k])
                    &&& !m.stands_below(top, rest[k])
                } by {
                    lemma_root_not_below(m, -1, r, rest[k]);
                    assert(rest.contains(rest[k]));
                }
                assert(outside(m, rest, top));
                assert(g.rect_of(top) == m.rect_of(top));
            }
        }
        assert forall|k: int| 0 <= k < roots.len() implies e.settled(#[trigger] roots[k])
            && e.split(roots[k]).rect == root_place(m, roots[k], width, height) by {
            if roots[k] != r {
                let d = rest[k];
                assert(m.roots.contains(d));
                assert(g.settled(d));
                assert(g.split(d).rect == root_place(m, d, width, height));
                lemma_root_not_below(g, -1, d, r);
                assert(e.rect_of(NodeIdx::Split(d)) == g.rect_of(NodeIdx::Split(d)));
            }
        }
        assert forall|n: NodeIdx| m.has(n) && outside(m, roots, n) implies #[trigger] e.rect_of(n)
            == m.rect_of(n) by {
            assert(outside(m, rest, n)) by {
                assert forall|k: int| 0 <= k < rest.len() implies {
                    &&& n != NodeIdx::Split(#[trigger] rest[k])
                    &&& !m.stands_below(n, rest[k])
                } by {
                    let _ = roots[k];
                }
            }
            let _ = roots[roots.len() - 1];
            lemma_moved_below(m, g, n, r);
            assert(g.rect_of(n) == m.rect_of(n));
        }
    }
}

/// A root keeps its corner on a screen of another size.
proof fn lemma_corner_kept(
    m: NodesView,
    roots: Seq<SplitIdx>,
    r: SplitIdx,
    width: u16,
    height: u16,
)
    requires
        m.linked(-1),
        forall|k: int| 0 <= k < roots.len() ==> m.roots.contains(#[trigger] roots[k]),
        m.roots.contains(r),
    ensures
        ({
            let e = m.resized_each(roots, width, height);
            &&& e.split(r).rect.x == m.split(r).rect.x
            &&& e.split(r).rect.y == m.split(r).rect.y
        }),
{
    lemma_resized_places(m, roots, width, height);
    let e = m.resized_each(roots, width, height);
    let top = NodeIdx::Split(r);
    lemma_root_not_below(m, -1, r, r);
    if roots.contains(r) {
        let j = choose|j: int| 0 <= j < roots.len() && roots[j] == r;
        assert(e.split(roots[j]).rect == root_place(m, roots[j], width, height));
    } else {
        assert forall|k: int| 0 <= k < roots.len() implies {
            &&& top != NodeIdx::Split(#[trigger] roots[k])
            &&& !m.stands_below(top, roots[k])
        } by {
            lemma_root_not_below(m, -1, r, roots[k]);
            assert(roots.contains(roots[k]));
        }
        assert(outside(m, roots, top));
        assert(e.rect_of(top) == m.rect_of(top));
    }
}

/// Whether the roots can be laid out on a screen does not depend on where
/// anything stood before.
proof fn lemma_resized_fits_same(
    a: NodesView,
    b: NodesView,
    roots: Seq<SplitIdx>,
    width: u16,
    height: u16,
)
    requires
        a.linked(-1),
        a.moved(b),
        forall|k: int| 0 <= k < roots.len() ==> a.roots.contains(#[trigger] roots[k]),
        forall|k: int|
            0 <= k < a.roots.len() ==> {
                &&& b.split(#[trigger] a.roots[k]).rect.x == a.split(a.roots[k]).rect.x
                &&& b.split(a.roots[k]).rect.y == a.split(a.roots[k]).rect.y
            },
        a.resized_each_fits(roots, width, height),
    ensures
        b.resized_each_fits(roots, width, height),
    decreases roots.len(),
{
    if roots.len() > 0 {
        let rest = roots.drop_last();
        let r = roots.last();
        let ri = r.0 as int;
        let rank = choose|rank: Seq<nat>| a.ranked(rank);
        assert(a.roots.contains(roots[roots.len() - 1]));
        assert forall|k: int| 0 <= k < rest.len() implies a.roots.contains(#[trigger] rest[k]) by {
            assert(a.roots.contains(roots[k]));
        }
        lemma_resized_fits_same(a, b, rest, width, height);
        tree_layout::lemma_moved_linked(a, b, -1);
        lemma_resized_places(a, rest, width, height);
        lemma_resized_places(b, rest, width, height);
        lemma_corner_kept(a, rest, r, width, height);
        lemma_corner_kept(b, rest, r, width, height);
        lemma_root_not_below(a, -1, r, r);
        let j = choose|j: int| 0 <= j < a.roots.len() && a.roots[j] == r;
        assert(b.split(a.roots[j]).rect.x == a.split(a.roots[j]).rect.x);
        let ga = a.resized_each(rest, width, height);
        let gb = b.resized_each(rest, width, height);
        assert(ga.splits[ri].constraints == a.splits[ri].constraints);
        assert(gb.splits[ri].constraints == b.splits[ri].constraints);
        assert(b.splits[ri].constraints == a.splits[ri].constraints);
        let sa = ga.with_root_size(r, width, height);
        let sb = gb.with_root_size(r, width, height);
        assert(ga.moved(sa));
        assert(gb.moved(sb));
        tree_layout::lemma_moved_trans(a, ga, sa);
        tree_layout::lemma_moved_trans(b, gb, sb);
        tree_layout::lemma_moved_linked(a, sa, -1);
        tree_layout::lemma_moved_ranked(a, sa, rank);
        lemma_moved_back(a, sa);
        tree_layout::lemma_moved_trans(sa, a, b);
        tree_layout::lemma_moved_trans(sa, b, sb);
        assert(sa.split(r).rect == sb.split(r).rect);
        lemma_fits_same(sa, sb, -1, rank, r, sa.splits.len());
    }
}

/// On a screen of another size every root takes what its constraints allow,
/// and an earlier size leaves no trace, neither in the tree nor in whether it
/// can be laid out.
pub proof fn law_no_trace(m: NodesView, earlier: (u16, u16), width: u16, height: u16)
    requires
        m.linked(-1),
    ensures
        m.resized(earlier.0, earlier.1).resized(width, height) == m.resized(width, height),
        m.resized_fits(width, height) ==> m.resized(earlier.0, earlier.1).resized_fits(
            width,
            height,
        ),
        m.moved(m.resized(width, height)),
        forall|k: int|
            0 <= k < m.roots.len() ==> m.resized(width, height).split(#[trigger] m.roots[k]).rect
                == root_place(m, m.roots[k], width, height),
{
    let x = m.resized(earlier.0, earlier.1);
    let y = x.resized(width, height);
    let z = m.resized(width, height);
    lemma_resized_places(m, m.roots, earlier.0, earlier.1);
    tree_layout::lemma_moved_linked(m, x, -1);
    lemma_resized_places(x, x.roots, width, height);
    lemma_resized_places(m, m.roots, width, height);
    tree_layout::lemma_moved_trans(m, x, y);
    tree_layout::lemma_moved_linked(m, z, -1);
    lemma_moved_back(m, z);
    tree_layout::lemma_moved_trans(z, m, y);
    assert forall|k: int| 0 <= k < m.roots.len() implies y.split(#[trigger] m.roots[k]).rect
        == z.split(m.roots[k]).rect by {
        let r = m.roots[k];
        assert(x.roots[k] == r);
        assert(m.roots.contains(r));
        lemma_root_not_below(m, -1, r, r);
        assert(x.splits[r.0 as int].constraints == m.splits[r.0 as int].constraints);
        assert(x.split(r).rect == root_place(m, r, earlier.0, earlier.1));
        assert(y.split(x.roots[k]).rect == root_place(x, x.roots[k], width, height));
    }
    assert forall|n: NodeIdx| m.has(n) implies #[trigger] y.rect_of(n) == z.rect_of(n) by {
        if outside(m, m.roots, n) {
            assert(outside(x, x.roots, n)) by {
                assert forall|k: int| 0 <= k < x.roots.len() implies {
                    &&& n != NodeIdx::Split(#[trigger] x.roots[k])
                    &&& !x.stands_below(n, x.roots[k])
                } by {
                    let _ = m.roots[k];
                    lemma_moved_below(m, x, n, x.roots[k]);
                }
            }
            assert(x.rect_of(n) == m.rect_of(n));
            assert(y.rect_of(n) == x.rect_of(n));
            assert(z.rect_of(n) == m.rect_of(n));
        } else {
            let k = choose|k: int|
                0 <= k < m.roots.len() && (n == NodeIdx::Split(#[trigger] m.roots[k])
                    || m.stands_below(n, m.roots[k]));
            let r = m.roots[k];
            assert(x.roots[k] == r);
            assert(y.split(m.roots[k]).rect == z.split(m.roots[k]).rect);
            if n != NodeIdx::Split(r) {
                assert(y.settled(x.roots[k]));
                assert(z.settled(m.roots[k]));
                lemma_moved_below(m, z, n, r);
                let i = choose|i: nat| z.climbs(n, r, i);
                assert(m.roots.contains(r));
                lemma_root_not_below(m, -1, r, r);
                lemma_same_below(z, y, -1, r, n, i);
            }
        }
    }
    assert forall|i: int| 0 <= i < y.splits.len() implies #[trigger] y.splits[i] == z.splits[i] by {
        let n = NodeIdx::Split(SplitIdx(i as usize));
        assert(y.rect_of(n) == z.rect_of(n));
    }
    assert forall|i: int| 0 <= i < y.leaves.len() implies #[trigger] y.leaves[i] == z.leaves[i] by {
        let n = NodeIdx::Leaf(LeafIdx(i as usize));
        assert(y.rect_of(n) == z.rect_of(n));
    }
    assert(y =~= z);
    if m.resized_fits(width, height) {
        assert forall|k: int| 0 <= k < m.roots.len() implies {
            &&& x.split(#[trigger] m.roots[k]).rect.x == m.split(m.roots[k]).rect.x
            &&& x.split(m.roots[k]).rect.y == m.split(m.roots[k]).rect.y
        } by {
            assert(x.split(m.roots[k]).rect == root_place(m, m.roots[k], earlier.0, earlier.1));
        }
        lemma_resized_fits_same(m, x, m.roots, width, height);
    }
}

// ---- side by side

proof fn lemma_free_space_left(mins: Seq<Option<int>>, total: int)
    requires
        total >= 0,
    ensures
        divide::free_space(mins, total) >= 0,
    decreases mins.len(),
{
    if mins.len() > 0 {
        lemma_free_space_left(mins.drop_last(), total);
    }
}

/// A division that fits gives no child less than nothing.
pub proof fn lemma_sizes_nonneg(m: NodesView, s: SplitIdx)
    requires
        m.division_fits(s),
    ensures
        ({
            let v = m.split(s);
            let slots = divide::divided(
                m.least_sizes(s),
                m.greatest_sizes(s),
                divide::main_extent(v.direction, v.rect),
            );
            tame::sizes_nonneg(slots) && slots.len() == v.children.len()
        }),
{
    let v = m.split(s);
    let mins = m.least_sizes(s);
    let maxes = m.greatest_sizes(s);
    let extent = divide::main_extent(v.direction, v.rect);
    let first = divide::least_slots(mins);
    let takers = divide::ordinals(mins.len());
    assert forall|k: int| 0 <= k < first.len() implies (#[trigger] first[k]).size >= 0 by {
        let n = v.children[k];
        assert(m.asks_fit(s, n));
        if let Some(d) = m.constraints_of(n).min_width {
            layout::lemma_extent_nonneg(d, v.rect.w as int);
        }
    }
    lemma_free_space_left(mins, extent);
    tame::lemma_share_total(first, maxes, takers, divide::free_space(mins, extent));
}

/// Children without anchors stand side by side: each starts where the one
/// before it ends.
proof fn lemma_side_by_side(m: NodesView, s: SplitIdx, j: int, k: int)
    requires
        m.split(s).direction is Vertical,
        m.division_fits(s),
        m.in_place(s),
        forall|i: int|
            0 <= i < m.split(s).children.len() ==> m.anchors_of(
                #[trigger] m.split(s).children[i],
            ) == AnchorsView::free(),
        0 <= j < k < m.split(s).children.len(),
    ensures
        ({
            let a = m.rect_of(m.split(s).children[j]);
            let b = m.rect_of(m.split(s).children[k]);
            &&& a.x + a.w <= b.x
            &&& k == j + 1 ==> a.x + a.w == b.x
        }),
{
    let v = m.split(s);
    let across = m.anchors_across(s);
    let along = m.anchors_along(s);
    let slots = divide::divided(
        m.least_sizes(s),
        m.greatest_sizes(s),
        divide::main_extent(v.direction, v.rect),
    );
    lemma_sizes_nonneg(m, s);
    assert(m.anchors_of(v.children[j]) == AnchorsView::free());
    assert(m.anchors_of(v.children[k]) == AnchorsView::free());
    assert(along[j] is None && along[k] is None);
    assert(divide::placed_fits(v.direction, v.rect, slots, across, along, j));
    assert(divide::placed_fits(v.direction, v.rect, slots, across, along, k));
    tame::lemma_line_up(slots, along, j);
    tame::lemma_line_up(slots, along, k);
    tame::lemma_line_up_ordered(slots, along, j + 1, k);
    assert(slots[j].size >= 0);
    assert(m.child_rects(s)[j] == divide::placed(v.direction, v.rect, slots, across, along, j));
    assert(m.child_rects(s)[k] == divide::placed(v.direction, v.rect, slots, across, along, k));
}

proof fn lemma_first_beyond(m: NodesView, nodes: Seq<NodeIdx>, side: Side, from: Rect, i: int)
    requires
        0 <= i < nodes.len(),
        m.lies(nodes[i], side, from),
        forall|j: int| 0 <= j < i ==> !m.lies(#[trigger] nodes[j], side, from),
    ensures
        m.first_beyond(nodes, side, from) == Some(i),
    decreases nodes.len(),
{
    let rest = nodes.drop_last();
    if i < rest.len() {
        assert forall|j: int| 0 <= j < i implies !m.lies(#[trigger] rest[j], side, from) by {
            let _ = nodes[j];
        }
        lemma_first_beyond(m, rest, side, from, i);
    } else {
        assert forall|j: int| 0 <= j < rest.len() implies !m.lies(
            #[trigger] rest[j],
            side,
            from,
        ) by {
            let _ = nodes[j];
        }
        lemma_none_beyond(m, rest, side, from);
    }
}

proof fn lemma_none_beyond(m: NodesView, nodes: Seq<NodeIdx>, side: Side, from: Rect)
    requires
        forall|j: int| 0 <= j < nodes.len() ==> !m.lies(#[trigger] nodes[j], side, from),
    ensures
        m.first_beyond(nodes, side, from) is None,
    decreases nodes.len(),
{
    if nodes.len() > 0 {
        let rest = nodes.drop_last();
        assert forall|j: int| 0 <= j < rest.len() implies !m.lies(
            #[trigger] rest[j],
            side,
            from,
        ) by {
            let _ = nodes[j];
        }
        let _ = nodes[nodes.len() - 1];
        lemma_none_beyond(m, rest, side, from);
    }
}

proof fn lemma_last_beyond(m: NodesView, nodes: Seq<NodeIdx>, side: Side, from: Rect, i: int)
    requires
        0 <= i < nodes.len(),
        m.lies(nodes[i], side, from),
        forall|j: int| i < j < nodes.len() ==> !m.lies(#[trigger] nodes[j], side, from),
    ensures
        m.last_beyond(nodes, side, from) == Some(i),
    decreases nodes.len(),
{
    if i < nodes.len() - 1 {
        let rest = nodes.drop_last();
        let _ = nodes[nodes.len() - 1];
        assert forall|j: int| i < j < rest.len() implies !m.lies(#[trigger] rest[j], side, from) by {
            let _ = nodes[j];
        }
        lemma_last_beyond(m, rest, side, from, i);
    }
}

proof fn lemma_beyond_fits(m: NodesView, nodes: Seq<NodeIdx>, side: Side, from: Rect)
    requires
        forall|j: int| 0 <= j < nodes.len() ==> m.edge_fits(#[trigger] nodes[j], side),
    ensures
        m.beyond_fits(nodes, side, from),
    decreases nodes.len(),
{
    if nodes.len() > 0 {
        let rest = nodes.drop_last();
        assert forall|j: int| 0 <= j < rest.len() implies m.edge_fits(#[trigger] rest[j], side) by {
            let _ = nodes[j];
        }
        let _ = nodes[nodes.len() - 1];
        lemma_beyond_fits(m, rest, side, from);
    }
}

/// Between neighbouring leaves that stand side by side, the focus goes to the
/// right and back to the left, and everything is as before.
pub proof fn law_there_and_back(m: NodesView, s: SplitIdx, i: int, a: LeafIdx, b: LeafIdx)
    requires
        m.linked(-1),
        s.0 < m.splits.len(),
        m.split(s).direction is Vertical,
        m.division_fits(s),
        m.in_place(s),
        forall|k: int|
            0 <= k < m.split(s).children.len() ==> {
                &&& m.anchors_of(#[trigger] m.split(s).children[k]) == AnchorsView::free()
                &&& m.rect_of(m.split(s).children[k]).w > 0
            },
        0 <= i,
        i + 1 < m.split(s).children.len(),
        m.split(s).children[i] == NodeIdx::Leaf(a),
        m.split(s).children[i + 1] == NodeIdx::Leaf(b),
        m.split(s).focus == i,
    ensures
        m.refocus_fits(a, Side::Right),
        m.refocused_leaf(a, Side::Right) == b,
        m.refocused(a, Side::Right) == m.with_focus(s, i + 1),
        m.ends_in_time(s) ==> m.refocused(a, Side::Right).refocus_fits(b, Side::Left),
        m.refocused(a, Side::Right).refocused_leaf(b, Side::Left) == a,
        m.refocused(a, Side::Right).refocused(b, Side::Left) == m,
{
    let children = m.split(s).children;
    let r = m.with_focus(s, i + 1);
    assert(m.children_linked(s.0 as int));
    assert(m.live(m.splits[s.0 as int].children[i]));
    assert(m.live(m.splits[s.0 as int].children[i + 1]));
    lemma_side_by_side(m, s, i, i + 1);
    let from = m.leaf(a).rect;
    assert forall|j: int| 0 <= j < i implies !m.lies(#[trigger] children[j], Side::Right, from) by {
        lemma_side_by_side(m, s, j, i);
        assert(m.rect_of(children[i]).w > 0);
    }
    assert(m.rect_of(children[i]).w > 0);
    assert(!m.lies(children[i], Side::Right, from));
    lemma_first_beyond(m, children, Side::Right, from, i + 1);
    assert(m.neighbour(a, Side::Right) == Some((s, i + 1)));
    assert(m.refocused(a, Side::Right) == r);
    let back = r.leaf(b).rect;
    assert forall|j: int| 0 <= j < children.len() implies r.rect_of(#[trigger] children[j])
        == m.rect_of(children[j]) by {
        assert(m.live(m.splits[s.0 as int].children[j]));
    }
    assert forall|j: int| i < j < children.len() implies !r.lies(
        #[trigger] children[j],
        Side::Left,
        back,
    ) by {
        assert(m.rect_of(children[j]).w > 0);
        if j > i + 1 {
            lemma_side_by_side(m, s, i + 1, j);
        }
    }
    assert(r.rect_of(children[i]) == m.rect_of(children[i]));
    lemma_last_beyond(r, children, Side::Left, back, i);
    assert(r.neighbour(b, Side::Left) == Some((s, i)));
    assert(r.with_focus(s, i) =~= m) by {
        assert(r.with_focus(s, i).splits =~= m.splits);
    }
    if m.ends_in_time(s) {
        let n = children.len() as int;
        assert forall|j: int| 0 <= j < n implies r.edge_fits(#[trigger] children[j], Side::Left) by {
            assert(r.rect_of(children[j]) == m.rect_of(children[j]));
            if j < n - 1 {
                lemma_side_by_side(m, s, j, n - 1);
            }
        }
        lemma_beyond_fits(r, children, Side::Left, back);
    }
}

/// The same right after the split was laid out.
pub proof fn law_there_and_back_laid_out(
    m: NodesView,
    s: SplitIdx,
    i: int,
    a: LeafIdx,
    b: LeafIdx,
)
    requires
        m.linked(-1),
        s.0 < m.splits.len(),
        m.layout_fits(s),
        m.split(s).direction is Vertical,
        forall|k: int|
            0 <= k < m.split(s).children.len() ==> {
                &&& m.anchors_of(#[trigger] m.split(s).children[k]) == AnchorsView::free()
                &&& m.laid_out(s).rect_of(m.split(s).children[k]).w > 0
            },
        0 <= i,
        i + 1 < m.split(s).children.len(),
        m.split(s).children[i] == NodeIdx::Leaf(a),
        m.split(s).children[i + 1] == NodeIdx::Leaf(b),
        m.split(s).focus == i,
    ensures
        ({
            let g = m.laid_out(s);
            &&& g.refocus_fits(a, Side::Right)
            &&& g.refocused_leaf(a, Side::Right) == b
            &&& g.refocused(a, Side::Right) == g.with_focus(s, i + 1)
            &&& g.ends_in_time(s) ==> g.refocused(a, Side::Right).refocus_fits(b, Side::Left)
            &&& g.refocused(a, Side::Right).refocused_leaf(b, Side::Left) == a
            &&& g.refocused(a, Side::Right).refocused(b, Side::Left) == g
        }),
{
    let g = m.laid_out(s);
    law_laid_out_once(m, -1, s);
    law_only_below_moves(m, -1, s, NodeIdx::Split(s));
    tree_layout::lemma_moved_linked(m, g, -1);
    lemma_child_rects_same(m, g, -1, s);
    assert(g.in_place(s));
    assert forall|k: int| 0 <= k < g.split(s).children.len() implies {
        &&& g.anchors_of(#[trigger] g.split(s).children[k]) == AnchorsView::free()
        &&& g.rect_of(g.split(s).children[k]).w > 0
        &&& g.asks_fit(s, g.split(s).children[k])
    } by {
        let n = m.split(s).children[k];
        lemma_child_climbs(m, -1, s, k);
        tame::lemma_moved_parent(m, g, n);
        assert(m.asks_fit(s, n));
    }
    assert(g.division_fits(s));
    law_there_and_back(g, s, i, a, b);
}

// ---- one below the other

/// In a horizontal split children without anchors stand one below the other:
/// each starts where the one above it ends.
proof fn lemma_one_below_other(m: NodesView, s: SplitIdx, j: int, k: int)
    requires
        m.split(s).direction is Horizontal,
        m.division_fits(s),
        m.in_place(s),
        forall|i: int|
            0 <= i < m.split(s).children.len() ==> m.anchors_of(
                #[trigger] m.split(s).children[i],
            ) == AnchorsView::free(),
        0 <= j < k < m.split(s).children.len(),
    ensures
        ({
            let a = m.rect_of(m.split(s).children[j]);
            let b = m.rect_of(m.split(s).children[k]);
            &&& a.y + a.h <= b.y
            &&& k == j + 1 ==> a.y + a.h == b.y
        }),
{
    let v = m.split(s);
    let across = m.anchors_across(s);
    let along = m.anchors_along(s);
    let slots = divide::divided(
        m.least_sizes(s),
        m.greatest_sizes(s),
        divide::main_extent(v.direction, v.rect),
    );
    lemma_sizes_nonneg(m, s);
    assert(m.anchors_of(v.children[j]) == AnchorsView::free());
    assert(m.anchors_of(v.children[k]) == AnchorsView::free());
    assert(along[j] is None && along[k] is None);
    assert(divide::placed_fits(v.direction, v.rect, slots, across, along, j));
    assert(divide::placed_fits(v.direction, v.rect, slots, across, along, k));
    tame::lemma_line_up(slots, along, j);
    tame::lemma_line_up(slots, along, k);
    tame::lemma_line_up_ordered(slots, along, j + 1, k);
    assert(slots[j].size >= 0);
    assert(m.child_rects(s)[j] == divide::placed(v.direction, v.rect, slots, across, along, j));
    assert(m.child_rects(s)[k] == divide::placed(v.direction, v.rect, slots, across, along, k));
}

/// Between neighbouring leaves that stand one below the other, the focus goes
/// down and back up, and everything is as before.
pub proof fn law_down_and_up(m: NodesView, s: SplitIdx, i: int, a: LeafIdx, b: LeafIdx)
    requires
        m.linked(-1),
        s.0 < m.splits.len(),
        m.split(s).direction is Horizontal,
        m.division_fits(s),
        m.in_place(s),
        forall|k: int|
            0 <= k < m.split(s).children.len() ==> {
                &&& m.anchors_of(#[trigger] m.split(s).children[k]) == AnchorsView::free()
                &&& m.rect_of(m.split(s).children[k]).h > 0
            },
        0 <= i,
        i + 1 < m.split(s).children.len(),
        m.split(s).children[i] == NodeIdx::Leaf(a),
        m.split(s).children[i + 1] == NodeIdx::Leaf(b),
        m.split(s).focus == i,
    ensures
        m.refocus_fits(a, Side::Down),
        m.refocused_leaf(a, Side::Down) == b,
        m.refocused(a, Side::Down) == m.with_focus(s, i + 1),
        m.refocused(a, Side::Down).refocused_leaf(b, Side::Up) == a,
        m.refocused(a, Side::Down).refocused(b, Side::Up) == m,
{
    let children = m.split(s).children;
    let r = m.with_focus(s, i + 1);
    assert(m.children_linked(s.0 as int));
    assert(m.live(m.splits[s.0 as int].children[i]));
    assert(m.live(m.splits[s.0 as int].children[i + 1]));
    lemma_one_below_other(m, s, i, i + 1);
    let from = m.leaf(a).rect;
    assert forall|j: int| 0 <= j < i implies !m.lies(#[trigger] children[j], Side::Down, from) by {
        lemma_one_below_other(m, s, j, i);
        assert(m.rect_of(children[i]).h > 0);
    }
    assert(m.rect_of(children[i]).h > 0);
    assert(!m.lies(children[i], Side::Down, from));
    lemma_first_beyond(m, children, Side::Down, from, i + 1);
    assert(m.neighbour(a, Side::Down) == Some((s, i + 1)));
    assert(m.refocused(a, Side::Down) == r);
    let back = r.leaf(b).rect;
    assert forall|j: int| 0 <= j < children.len() implies r.rect_of(#[trigger] children[j])
        == m.rect_of(children[j]) by {
        assert(m.live(m.splits[s.0 as int].children[j]));
    }
    assert forall|j: int| i < j < children.len() implies !r.lies(
        #[trigger] children[j],
        Side::Up,
        back,
    ) by {
        assert(m.rect_of(children[j]).h > 0);
        if j > i + 1 {
            lemma_one_below_other(m, s, i + 1, j);
        }
    }
    assert(r.rect_of(children[i]) == m.rect_of(children[i]));
    lemma_last_beyond(r, children, Side::Up, back, i);
    assert(r.neighbour(b, Side::Up) == Some((s, i)));
    assert(r.with_focus(s, i) =~= m) by {
        assert(r.with_focus(s, i).splits =~= m.splits);
    }
}

/// The same right after the split was laid out.
pub proof fn law_down_and_up_laid_out(m: NodesView, s: SplitIdx, i: int, a: LeafIdx, b: LeafIdx)
    requires
        m.linked(-1),
        s.0 < m.splits.len(),
        m.layout_fits(s),
        m.split(s).direction is Horizontal,
        forall|k: int|
            0 <= k < m.split(s).children.len() ==> {
                &&& m.anchors_of(#[trigger] m.split(s).children[k]) == AnchorsView::free()
                &&& m.laid_out(s).rect_of(m.split(s).children[k]).h > 0
            },
        0 <= i,
        i + 1 < m.split(s).children.len(),
        m.split(s).children[i] == NodeIdx::Leaf(a),
        m.split(s).children[i + 1] == NodeIdx::Leaf(b),
        m.split(s).focus == i,
    ensures
        ({
            let g = m.laid_out(s);
            &&& g.refocus_fits(a, Side::Down)
            &&& g.refocused_leaf(a, Side::Down) == b
            &&& g.refocused(a, Side::Down) == g.with_focus(s, i + 1)
            &&& g.refocused(a, Side::Down).refocused_leaf(b, Side::Up) == a
            &&& g.refocused(a, Side::Down).refocused(b, Side::Up) == g
        }),
{
    let g = m.laid_out(s);
    law_laid_out_once(m, -1, s);
    law_only_below_moves(m, -1, s, NodeIdx::Split(s));
    tree_layout::lemma_moved_linked(m, g, -1);
    lemma_child_rects_same(m, g, -1, s);
    assert(g.in_place(s));
    assert forall|k: int| 0 <= k < g.split(s).children.len() implies {
        &&& g.anchors_of(#[trigger] g.split(s).children[k]) == AnchorsView::free()
        &&& g.rect_of(g.split(s).children[k]).h > 0
        &&& g.asks_fit(s, g.split(s).children[k])
    } by {
        let n = m.split(s).children[k];
        lemma_child_climbs(m, -1, s, k);
        tame::lemma_moved_parent(m, g, n);
        assert(m.asks_fit(s, n));
    }
    assert(g.division_fits(s));
    law_down_and_up(g, s, i, a, b);
}

// ---- the nearest one

/// A rectangle lies wholly to one side of another.
pub open spec fn wholly(side: Side, r: Rect, from: Rect) -> bool {
    match side {
        Side::Right => from.x + from.w <= r.x,
        Side::Left => r.x + r.w <= from.x,
        Side::Down => from.y + from.h <= r.y,
        Side::Up => r.y + r.h <= from.y,
    }
}

proof fn lemma_first_is_first(m: NodesView, nodes: Seq<NodeIdx>, side: Side, from: Rect)
    ensures
        match m.first_beyond(nodes, side, from) {
            Some(k) => {
                &&& 0 <= k < nodes.len()
                &&& wholly(side, m.rect_of(nodes[k]), from)
                &&& forall|j: int|
                    0 <= j < k ==> !wholly(side, m.rect_of(#[trigger] nodes[j]), from)
            },
            None => forall|j: int|
                0 <= j < nodes.len() ==> !wholly(side, m.rect_of(#[trigger] nodes[j]), from),
        },
    decreases nodes.len(),
{
    if nodes.len() > 0 {
        let rest = nodes.drop_last();
        lemma_first_is_first(m, rest, side, from);
        match m.first_beyond(rest, side, from) {
            Some(k) => {
                assert(rest[k] == nodes[k]);
                assert forall|j: int| 0 <= j < k implies !wholly(
                    side,
                    m.rect_of(#[trigger] nodes[j]),
                    from,
                ) by {
                    let _ = rest[j];
                }
            },
            None => {
                assert forall|j: int| 0 <= j < rest.len() implies !wholly(
                    side,
                    m.rect_of(#[trigger] nodes[j]),
                    from,
                ) by {
                    let _ = rest[j];
                }
            },
        }
    }
}

proof fn lemma_last_is_last(m: NodesView, nodes: Seq<NodeIdx>, side: Side, from: Rect)
    ensures
        match m.last_beyond(nodes, side, from) {
            Some(k) => {
                &&& 0 <= k < nodes.len()
                &&& wholly(side, m.rect_of(nodes[k]), from)
                &&& forall|j: int|
                    k < j < nodes.len() ==> !wholly(side, m.rect_of(#[trigger] nodes[j]), from)
            },
            None => forall|j: int|
                0 <= j < nodes.len() ==> !wholly(side, m.rect_of(#[trigger] nodes[j]), from),
        },
    decreases nodes.len(),
{
    if nodes.len() > 0 && !m.lies(nodes.last(), side, from) {
        let rest = nodes.drop_last();
        lemma_last_is_last(m, rest, side, from);
        assert forall|j: int|
            0 <= j < nodes.len() && (match m.last_beyond(rest, side, from) {
                Some(k) => k < j,
                None => true,
            }) implies !wholly(side, m.rect_of(#[trigger] nodes[j]), from) by {
            if j < rest.len() {
                let _ = rest[j];
            }
        }
    }
}

/// The focus goes to the nearest child of the own split that lies wholly on
/// the side it is sent to: the first to the right and below, the last to the
/// left and above. It stays in that split as long as there is one.
pub proof fn law_nearest(m: NodesView, l: LeafIdx, side: Side, k: int)
    requires
        m.linked(-1),
        l.0 < m.leaves.len(),
        0 <= k < m.split(m.leaf(l).parent).children.len(),
        wholly(side, m.rect_of(m.split(m.leaf(l).parent).children[k]), m.leaf(l).rect),
        forall|j: int|
            (if side is Right || side is Down {
                0 <= j < k
            } else {
                k < j < m.split(m.leaf(l).parent).children.len()
            }) ==> !wholly(
                side,
                m.rect_of(#[trigger] m.split(m.leaf(l).parent).children[j]),
                m.leaf(l).rect,
            ),
    ensures
        ({
            let s = m.leaf(l).parent;
            let n = m.split(s).children[k];
            let g = m.refocused(l, side);
            &&& g == m.with_focus(s, k)
            &&& n matches NodeIdx::Leaf(x) ==> m.refocused_leaf(l, side) == x
            &&& n matches NodeIdx::Split(q) ==> (0 <= g.split(q).focus < g.split(q).children.len()
                ==> (g.split(q).children[g.split(q).focus] matches NodeIdx::Leaf(x)
                ==> m.refocused_leaf(l, side) == x))
        }),
{
    let s = m.leaf(l).parent;
    let children = m.split(s).children;
    let from = m.leaf(l).rect;
    assert(m.leaves[l.0 as int].parent.0 < m.splits.len());
    lemma_first_is_first(m, children, side, from);
    lemma_last_is_last(m, children, side, from);
    if let Some(j) = m.beyond(children, side, from) {
        assert(wholly(side, m.rect_of(children[j]), from));
        if j != k {
            assert(children[j] == m.split(m.leaf(l).parent).children[j]);
        }
    }
    assert(m.beyond(children, side, from) == Some(k));
    assert(m.neighbour(l, side) == Some((s, k)));
    reveal_with_fuel(NodesView::follow, 3);
    if children[k] is Split && m.splits.len() == 1 {
        let rank = choose|rank: Seq<nat>| m.ranked(rank);
        assert(m.children_linked(s.0 as int));
        assert(m.live(m.splits[s.0 as int].children[k]));
        let q = children[k]->Split_0;
        assert(rank[q.0 as int] < rank[s.0 as int]);
    }
}

/// Where nothing lies on that side, neither in the own split nor in those
/// above it, the focus stays.
pub proof fn law_nowhere_to_go(m: NodesView, l: LeafIdx, side: Side)
    requires
        m.linked(-1),
        l.0 < m.leaves.len(),
        forall|s: SplitIdx, k: int|
            s.0 < m.splits.len() && 0 <= k < m.split(s).children.len() && (s == m.leaf(l).parent
                || m.stands_below(NodeIdx::Split(m.leaf(l).parent), s)) ==> !wholly(
                side,
                m.rect_of(#[trigger] m.split(s).children[k]),
                m.leaf(l).rect,
            ),
        m.live(NodeIdx::Split(m.leaf(l).parent)),
    ensures
        m.refocused(l, side) == m,
        m.refocused_leaf(l, side) == l,
{
    lemma_seek_nothing(m, l, side, m.leaf(l).parent, m.splits.len());
}

proof fn lemma_seek_nothing(m: NodesView, l: LeafIdx, side: Side, s: SplitIdx, depth: nat)
    requires
        m.linked(-1),
        m.live(NodeIdx::Split(s)),
        s == m.leaf(l).parent || m.stands_below(NodeIdx::Split(m.leaf(l).parent), s),
        forall|q: SplitIdx, k: int|
            q.0 < m.splits.len() && 0 <= k < m.split(q).children.len() && (q == m.leaf(l).parent
                || m.stands_below(NodeIdx::Split(m.leaf(l).parent), q)) ==> !wholly(
                side,
                m.rect_of(#[trigger] m.split(q).children[k]),
                m.leaf(l).rect,
            ),
    ensures
        m.seek(s, side, m.leaf(l).rect, depth) is None,
    decreases depth,
{
    if depth > 0 {
        let children = m.split(s).children;
        lemma_first_is_first(m, children, side, m.leaf(l).rect);
        lemma_last_is_last(m, children, side, m.leaf(l).rect);
        if let Some(j) = m.beyond(children, side, m.leaf(l).rect) {
            assert(!wholly(side, m.rect_of(m.split(s).children[j]), m.leaf(l).rect));
        }
        if let Some(p) = m.split(s).parent {
            assert(m.parent_linked(s.0 as int));
            let x = NodeIdx::Split(s);
            let c = m.split(p).children;
            let i = choose|i: int| 0 <= i < c.len() && c[i] == x;
            lemma_child_climbs(m, -1, p, i);
            if s != m.leaf(l).parent {
                lemma_below_trans(m, NodeIdx::Split(m.leaf(l).parent), s, p);
            }
            let rank = choose|rank: Seq<nat>| m.ranked(rank);
            crate::nodes::lemma_parent_live(m, rank, s, p);
            lemma_seek_nothing(m, l, side, p, (depth - 1) as nat);
        }
    }
}

/// Where nothing lies on that side in the own split, nor in those above it up
/// to split `q`, the focus goes to the nearest child of `q` on that side.
pub proof fn law_nearest_above(m: NodesView, l: LeafIdx, side: Side, q: SplitIdx, k: int)
    requires
        m.linked(-1),
        l.0 < m.leaves.len(),
        m.live(NodeIdx::Split(m.leaf(l).parent)),
        q.0 < m.splits.len(),
        m.stands_below(NodeIdx::Split(m.leaf(l).parent), q),
        forall|s: SplitIdx, j: int|
            s.0 < m.splits.len() && 0 <= j < m.split(s).children.len() && (s == m.leaf(l).parent
                || m.stands_below(NodeIdx::Split(m.leaf(l).parent), s)) && m.stands_below(
                NodeIdx::Split(s),
                q,
            ) ==> !wholly(
                side,
                m.rect_of(#[trigger] m.split(s).children[j]),
                m.leaf(l).rect,
            ),
        0 <= k < m.split(q).children.len(),
        wholly(side, m.rect_of(m.split(q).children[k]), m.leaf(l).rect),
        forall|j: int|
            (if side is Right || side is Down {
                0 <= j < k
            } else {
                k < j < m.split(q).children.len()
            }) ==> !wholly(side, m.rect_of(#[trigger] m.split(q).children[j]), m.leaf(l).rect),
    ensures
        m.refocused(l, side) == m.with_focus(q, k),
        m.split(q).children[k] matches NodeIdx::Leaf(x) ==> m.refocused_leaf(l, side) == x,
{
    let rank = choose|rank: Seq<nat>| m.ranked(rank);
    lemma_seek_up(m, rank, l, side, m.leaf(l).parent, q, k, m.splits.len());
    assert(m.neighbour(l, side) == Some((q, k)));
}

proof fn lemma_seek_up(
    m: NodesView,
    rank: Seq<nat>,
    l: LeafIdx,
    side: Side,
    s: SplitIdx,
    q: SplitIdx,
    k: int,
    depth: nat,
)
    requires
        m.linked(-1),
        m.ranked(rank),
        m.live(NodeIdx::Split(s)),
        depth + rank[s.0 as int] >= m.splits.len(),
        s == m.leaf(l).parent || m.stands_below(NodeIdx::Split(m.leaf(l).parent), s),
        s == q || m.stands_below(NodeIdx::Split(s), q),
        forall|s: SplitIdx, j: int|
            s.0 < m.splits.len() && 0 <= j < m.split(s).children.len() && (s == m.leaf(l).parent
                || m.stands_below(NodeIdx::Split(m.leaf(l).parent), s)) && m.stands_below(
                NodeIdx::Split(s),
                q,
            ) ==> !wholly(
                side,
                m.rect_of(#[trigger] m.split(s).children[j]),
                m.leaf(l).rect,
            ),
        0 <= k < m.split(q).children.len(),
        wholly(side, m.rect_of(m.split(q).children[k]), m.leaf(l).rect),
        forall|j: int|
            (if side is Right || side is Down {
                0 <= j < k
            } else {
                k < j < m.split(q).children.len()
            }) ==> !wholly(side, m.rect_of(#[trigger] m.split(q).children[j]), m.leaf(l).rect),
    ensures
        m.seek(s, side, m.leaf(l).rect, depth) == Some((q, k)),
    decreases depth,
{
    let children = m.split(s).children;
    let from = m.leaf(l).rect;
    assert(rank[s.0 as int] < rank.len());
    lemma_first_is_first(m, children, side, from);
    lemma_last_is_last(m, children, side, from);
    if s == q {
        if let Some(j) = m.beyond(children, side, from) {
            assert(wholly(side, m.rect_of(children[j]), from));
            if j != k {
                assert(children[j] == m.split(q).children[j]);
            }
        }
        assert(m.beyond(children, side, from) == Some(k));
    } else {
        if let Some(j) = m.beyond(children, side, from) {
            assert(!wholly(side, m.rect_of(m.split(s).children[j]), from));
        }
        let steps = choose|steps: nat| m.climbs(NodeIdx::Split(s), q, steps);
        let p = m.split(s).parent->0;
        let c = m.split(p).children;
        let i = choose|i: int| 0 <= i < c.len() && c[i] == NodeIdx::Split(s);
        lemma_child_climbs(m, -1, p, i);
        if s != m.leaf(l).parent {
            lemma_below_trans(m, NodeIdx::Split(m.leaf(l).parent), s, p);
        }
        if p != q {
            assert(m.climbs(NodeIdx::Split(p), q, (steps - 1) as nat));
        }
        crate::nodes::lemma_parent_live(m, rank, s, p);
        lemma_seek_up(m, rank, l, side, p, q, k, (depth - 1) as nat);
    }
}

} // verus!
