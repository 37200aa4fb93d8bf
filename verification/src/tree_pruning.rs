//! Facts on taking nodes out of a tree.
use vstd::prelude::*;
use crate::divide;
use crate::layout::{AnchorsView, ConstraintsView};
use crate::tree;
use crate::tree::{ComponentView, LeafIdx, NodeIdx, NodesView, SplitIdx, SplitView};

verus! {

/// Taking one value out of a list keeps the rest, in order and once.
pub proof fn lemma_without(s: Seq<NodeIdx>, x: NodeIdx)
    ensures
        forall|y: NodeIdx|
            #![trigger tree::without(s, x).contains(y)]
            #![trigger s.contains(y)]
            tree::without(s, x).contains(y) <==> s.contains(y) && y != x,
        s.no_duplicates() ==> tree::without(s, x).no_duplicates(),
        tree::without(s, x).len() <= s.len(),
    decreases s.len(),
{
    reveal(Seq::filter);
    if s.len() > 0 {
        let rest = s.drop_last();
        lemma_without(rest, x);
        let f = tree::without(rest, x);
        let g = tree::without(s, x);
        assert forall|y: NodeIdx|
            #![trigger g.contains(y)]
            #![trigger s.contains(y)]
            g.contains(y) <==> s.contains(y) && y != x by {
            if g.contains(y) {
                let k = choose|k: int| 0 <= k < g.len() && g[k] == y;
                if k < f.len() {
                    assert(f[k] == y);
                    assert(f.contains(y));
                    let j = choose|j: int| 0 <= j < rest.len() && rest[j] == y;
                    assert(s[j] == y);
                } else {
                    assert(s[s.len() - 1] == y);
                }
            }
            if s.contains(y) && y != x {
                let j = choose|j: int| 0 <= j < s.len() && s[j] == y;
                if j < rest.len() {
                    assert(rest[j] == y);
                    assert(f.contains(y));
                    let k = choose|k: int| 0 <= k < f.len() && f[k] == y;
                    assert(g[k] == y);
                } else {
                    assert(g[g.len() - 1] == y);
                }
            }
        }
        if s.no_duplicates() {
            assert(rest.no_duplicates());
            assert forall|a: int, b: int|
                0 <= a < g.len() && 0 <= b < g.len() && a != b implies g[a] != g[b] by {
                if a < f.len() && b < f.len() {
                    assert(f[a] != f[b]);
                } else if a < f.len() {
                    assert(f.contains(f[a]));
                    let j = choose|j: int| 0 <= j < rest.len() && rest[j] == f[a];
                    assert(s[j] != s[s.len() - 1]);
                } else if b < f.len() {
                    assert(f.contains(f[b]));
                    let j = choose|j: int| 0 <= j < rest.len() && rest[j] == f[b];
                    assert(s[j] != s[s.len() - 1]);
                }
            }
        }
    }
}

impl NodesView {
    /// Every split below another one has children, but for `s`.
    pub open spec fn filled_except(self, s: SplitIdx) -> bool {
        forall|i: int, k: int|
            0 <= i < self.splits.len() && 0 <= k < self.splits[i].children.len() ==> (
            #[trigger] self.splits[i].children[k] matches NodeIdx::Split(c) ==> c == s
                || self.split(c).children.len() > 0)
    }

    /// No split has `n` as a child.
    pub open spec fn detached(self, n: NodeIdx) -> bool {
        forall|i: int|
            0 <= i < self.splits.len() ==> !(#[trigger] self.splits[i]).children.contains(n)
    }
}

/// The split that may stand loose once `n` is dropped from `parent`.
pub open spec fn loose_index(m: NodesView, parent: SplitIdx, n: NodeIdx) -> int {
    match n {
        NodeIdx::Split(s) if m.split(parent).children.contains(n) => s.0 as int,
        _ => -1,
    }
}

/// Fewer children in one split, with a focus among them, keep a tree linked,
/// but for the split that is gone from them.
pub proof fn lemma_fewer_children_linked(
    m: NodesView,
    loose: int,
    rank: Seq<nat>,
    p: SplitIdx,
    children: Seq<NodeIdx>,
    focus: int,
    gone: NodeIdx,
)
    requires
        m.linked(loose),
        m.ranked(rank),
        p.0 < m.splits.len(),
        forall|y: NodeIdx|
            #[trigger] children.contains(y) <==> m.split(p).children.contains(y) && y != gone,
        children.no_duplicates(),
        0 <= focus,
        focus == 0 || focus < children.len(),
        loose < 0,
    ensures
        ({
            let g = m.with_split(p, SplitView { children, focus, ..m.split(p) });
            &&& g.ranked(rank)
            &&& g.linked(loose_index(m, p, gone))
            &&& m.filled() ==> g.filled_except(p)
            &&& m.filled_except(p) ==> g.filled_except(p)
        }),
{
    let g = m.with_split(p, SplitView { children, focus, ..m.split(p) });
    let pi = p.0 as int;
    let loose2 = loose_index(m, p, gone);
    assert(g.ranked(rank)) by {
        assert forall|i: int, k: int|
            0 <= i < g.splits.len() && 0 <= k < g.splits[i].children.len() implies (
        #[trigger] g.splits[i].children[k] matches NodeIdx::Split(c) ==> rank[c.0 as int]
            < rank[i]) by {
            if i == pi {
                let y = children[k];
                assert(children.contains(y));
                let j = choose|j: int| 0 <= j < m.splits[pi].children.len() && m.splits[pi].children[j] == y;
                assert(m.splits[pi].children[j] == y);
            } else {
                let _ = m.splits[i].children[k];
            }
        }
    }
    assert forall|i: int| 0 <= i < g.splits.len() implies #[trigger] g.children_linked(i) by {
        assert(m.children_linked(i));
        let c = g.splits[i].children;
        assert forall|k: int| 0 <= k < c.len() implies {
            &&& g.live(#[trigger] c[k])
            &&& g.parent_of(c[k]) == Some(SplitIdx(i as usize))
        } by {
            if i == pi {
                assert(children.contains(c[k]));
                let oc = m.splits[pi].children;
                let j = choose|j: int| 0 <= j < oc.len() && oc[j] == c[k];
                assert(m.live(oc[j]));
            } else {
                assert(m.live(m.splits[i].children[k]));
            }
        }
    }
    assert forall|i: int|
        0 <= i < g.splits.len() && i != loose2 && !g.free_splits.contains(
            i as usize,
        ) implies #[trigger] g.parent_linked(i) by {
        assert(m.parent_linked(i));
        assert(g.splits[i].parent == m.splits[i].parent);
        if let Some(q) = m.splits[i].parent {
            let x = NodeIdx::Split(SplitIdx(i as usize));
            assert(m.split(q).children.contains(x));
            if q == p {
                assert(x != gone);
                assert(children.contains(x));
            }
        }
    }
    assert forall|k: int| 0 <= k < g.roots.len() implies {
        &&& g.live(NodeIdx::Split(#[trigger] g.roots[k]))
        &&& g.split(g.roots[k]).parent is None
    } by {
        assert(m.live(NodeIdx::Split(m.roots[k])));
    }
    assert forall|k: int| 0 <= k < g.free_splits.len() implies {
        &&& #[trigger] g.free_splits[k] < g.splits.len()
        &&& g.splits[g.free_splits[k] as int].children.len() == 0
    } by {
        let x = m.free_splits[k] as int;
        if x == pi && children.len() > 0 {
            assert(children.contains(children[0]));
        }
    }
    assert forall|i: int| 0 <= i < g.leaves.len() implies (#[trigger] g.leaves[i]).parent.0
        < g.splits.len() by {
        let _ = m.leaves[i];
    }
    if m.filled() || m.filled_except(p) {
        assert forall|i: int, k: int|
            0 <= i < g.splits.len() && 0 <= k < g.splits[i].children.len() implies (
        #[trigger] g.splits[i].children[k] matches NodeIdx::Split(c) ==> c == p || g.split(
            c,
        ).children.len() > 0) by {
            assert(g.children_linked(i));
            assert(g.live(g.splits[i].children[k]));
            if i == pi {
                assert(children.contains(g.splits[i].children[k]));
                let oc = m.splits[pi].children;
                let j = choose|j: int| 0 <= j < oc.len() && oc[j] == g.splits[i].children[k];
                assert(m.splits[pi].children[j] == g.splits[i].children[k]);
            } else {
                let _ = m.splits[i].children[k];
            }
        }
    }
}

/// A node is a child of at most the split that it names as its parent.
pub proof fn lemma_only_parent_holds(m: NodesView, loose: int, n: NodeIdx, i: int)
    requires
        m.linked(loose),
        0 <= i < m.splits.len(),
        m.splits[i].children.contains(n),
    ensures
        m.has(n),
        m.live(n),
        m.parent_of(n) == Some(SplitIdx(i as usize)),
{
    assert(m.children_linked(i));
    let c = m.splits[i].children;
    let k = choose|k: int| 0 <= k < c.len() && c[k] == n;
    assert(m.live(c[k]));
}

/// A dropped child is held by nobody, and the tree is linked but for it.
pub proof fn lemma_dropped_linked(m: NodesView, rank: Seq<nat>, parent: SplitIdx, child: NodeIdx)
    requires
        m.linked(-1),
        m.ranked(rank),
        parent.0 < m.splits.len(),
    ensures
        m.dropped(parent, child).linked(loose_index(m, parent, child)),
        m.dropped(parent, child).ranked(rank),
        m.filled() ==> m.dropped(parent, child).filled_except(parent),
        m.split(parent).children.contains(child) ==> m.dropped(parent, child).detached(child),
{
    let v = m.split(parent);
    let rest = tree::without(v.children, child);
    lemma_without(v.children, child);
    assert(m.children_linked(parent.0 as int));
    let focus = if rest.len() == 0 {
        0
    } else {
        (v.focus + rest.len() - 1) % (rest.len() as int)
    };
    lemma_fewer_children_linked(m, -1, rank, parent, rest, focus, child);
    let g = m.dropped(parent, child);
    if m.split(parent).children.contains(child) {
        assert forall|i: int| 0 <= i < g.splits.len() implies !(
        #[trigger] g.splits[i]).children.contains(child) by {
            if i != parent.0 && m.splits[i].children.contains(child) {
                lemma_only_parent_holds(m, -1, child, i);
                lemma_only_parent_holds(m, -1, child, parent.0 as int);
            }
        }
    }
}

/// A list without the value at its first place in it.
pub proof fn lemma_remove_index(s: Seq<NodeIdx>, x: NodeIdx)
    requires
        s.no_duplicates(),
        s.contains(x),
    ensures
        0 <= s.index_of(x) < s.len(),
        s[s.index_of(x)] == x,
        s.remove(s.index_of(x)).len() == s.len() - 1,
        s.remove(s.index_of(x)).no_duplicates(),
        forall|y: NodeIdx|
            #[trigger] s.remove(s.index_of(x)).contains(y) <==> s.contains(y) && y != x,
{
    let at = s.index_of(x);
    let w = choose|i: int| 0 <= i < s.len() && s[i] == x;
    assert(s[w] == x);
    let r = s.remove(at);
    assert forall|y: NodeIdx| #[trigger] r.contains(y) <==> s.contains(y) && y != x by {
        if r.contains(y) {
            let k = choose|k: int| 0 <= k < r.len() && r[k] == y;
            if k < at {
                assert(s[k] == y);
                assert(s[k] != s[at]);
            } else {
                assert(s[k + 1] == y);
                assert(s[k + 1] != s[at]);
            }
        }
        if s.contains(y) && y != x {
            let k = choose|k: int| 0 <= k < s.len() && s[k] == y;
            if k < at {
                assert(r[k] == y);
            } else {
                assert(r[k - 1] == y);
            }
        }
    }
    assert forall|a: int, b: int| 0 <= a < r.len() && 0 <= b < r.len() && a != b implies r[a]
        != r[b] by {
        let a2 = if a < at {
            a
        } else {
            a + 1
        };
        let b2 = if b < at {
            b
        } else {
            b + 1
        };
        assert(s[a2] != s[b2]);
    }
}

/// A childless split taken out of its parent, with its slot free, leaves a
/// linked tree.
pub proof fn lemma_cut_linked(m: NodesView, loose: int, rank: Seq<nat>, s: SplitIdx, p: SplitIdx)
    requires
        m.linked(loose),
        m.ranked(rank),
        m.live(NodeIdx::Split(s)),
        s.0 != loose,
        m.split(s).children.len() == 0,
        m.split(s).parent == Some(p),
        p.0 < m.splits.len(),
        m.split(p).children.contains(NodeIdx::Split(s)),
    ensures
        m.cut(s, p).linked(loose),
        m.cut(s, p).ranked(rank),
        m.filled_except(s) ==> m.cut(s, p).filled_except(p),
        m.live(NodeIdx::Split(p)) ==> m.cut(s, p).live(NodeIdx::Split(p)),
        rank[s.0 as int] < rank[p.0 as int],
        m.cut(s, p).detached(NodeIdx::Split(s)),
{
    let x = NodeIdx::Split(s);
    let v = m.split(p);
    assert(m.children_linked(p.0 as int));
    lemma_remove_index(v.children, x);
    let at = v.children.index_of(x);
    let rest = v.children.remove(at);
    let focus = divide::monus(v.focus, 1);
    let h = m.with_split(p, SplitView { children: rest, focus, ..v });
    let rank_here = m.splits[p.0 as int].children[at];
    assert(rank[s.0 as int] < rank[p.0 as int]);
    assert(s != p);
    lemma_fewer_plain(m, loose, rank, p, rest, focus, s);
    let g = m.cut(s, p);
    assert(g == h.freed(x));
    assert(g.splits == h.splits);
    assert forall|i: int| 0 <= i < g.splits.len() implies !(#[trigger] g.splits[i]).children.contains(
        x,
    ) by {
        if i != p.0 && m.splits[i].children.contains(x) {
            lemma_only_parent_holds(m, loose, x, i);
        }
    }
    assert(g.ranked(rank)) by {
        assert forall|i: int, k: int|
            0 <= i < g.splits.len() && 0 <= k < g.splits[i].children.len() implies (
        #[trigger] g.splits[i].children[k] matches NodeIdx::Split(c) ==> rank[c.0 as int]
            < rank[i]) by {
            let _ = h.splits[i].children[k];
        }
    }
    assert forall|y: usize| g.free_splits.contains(y) <==> m.free_splits.contains(y) || y == s.0 by {
        if g.free_splits.contains(y) {
            let k = choose|k: int| 0 <= k < g.free_splits.len() && g.free_splits[k] == y;
            if k < m.free_splits.len() {
                assert(m.free_splits[k] == y);
            }
        }
        if m.free_splits.contains(y) {
            let k = choose|k: int| 0 <= k < m.free_splits.len() && m.free_splits[k] == y;
            assert(g.free_splits[k] == y);
        }
        assert(g.free_splits[g.free_splits.len() - 1] == s.0);
    }
    assert forall|i: int| 0 <= i < g.splits.len() implies #[trigger] g.children_linked(i) by {
        assert(h.children_linked(i));
        let c = g.splits[i].children;
        assert forall|k: int| 0 <= k < c.len() implies {
            &&& g.live(#[trigger] c[k])
            &&& g.parent_of(c[k]) == Some(SplitIdx(i as usize))
        } by {
            assert(h.live(c[k]));
            assert(c.contains(c[k]));
        }
    }
    assert forall|i: int|
        0 <= i < g.splits.len() && i != loose && !g.free_splits.contains(
            i as usize,
        ) implies #[trigger] g.parent_linked(i) by {
        assert(h.linked_except_two(loose, s.0 as int));
        assert(!h.free_splits.contains(i as usize));
        assert(i != s.0);
        assert(h.parent_linked(i));
    }
    assert forall|k: int| 0 <= k < g.roots.len() implies {
        &&& g.live(NodeIdx::Split(#[trigger] g.roots[k]))
        &&& g.split(g.roots[k]).parent is None
    } by {
        assert(m.live(NodeIdx::Split(m.roots[k])));
        assert(m.split(m.roots[k]).parent is None);
        assert(m.roots[k] != s);
    }
    assert forall|k: int| 0 <= k < g.free_splits.len() implies {
        &&& #[trigger] g.free_splits[k] < g.splits.len()
        &&& g.splits[g.free_splits[k] as int].children.len() == 0
    } by {
        if k < m.free_splits.len() {
            assert(h.free_splits[k] == g.free_splits[k]);
        }
    }
    assert(g.free_splits.no_duplicates()) by {
        assert forall|a: int, b: int|
            0 <= a < g.free_splits.len() && 0 <= b < g.free_splits.len() && a != b implies
            g.free_splits[a] != g.free_splits[b] by {
            if a < m.free_splits.len() && b < m.free_splits.len() {
                assert(m.free_splits[a] != m.free_splits[b]);
            } else if a < m.free_splits.len() {
                assert(m.free_splits.contains(m.free_splits[a]));
            } else if b < m.free_splits.len() {
                assert(m.free_splits.contains(m.free_splits[b]));
            }
        }
    }
    if m.filled_except(s) {
        assert forall|i: int, k: int|
            0 <= i < g.splits.len() && 0 <= k < g.splits[i].children.len() implies (
        #[trigger] g.splits[i].children[k] matches NodeIdx::Split(c) ==> c == p || g.split(
            c,
        ).children.len() > 0) by {
            let n = g.splits[i].children[k];
            assert(g.children_linked(i));
            assert(g.live(n));
            assert(g.splits[i].children.contains(n));
            if i == p.0 {
                assert(rest.contains(n));
                let oc = m.splits[i].children;
                let j = choose|j: int| 0 <= j < oc.len() && oc[j] == n;
                assert(m.splits[i].children[j] == n);
            } else {
                assert(m.splits[i].children[k] == n);
            }
        }
    }
}

impl NodesView {
    /// Linked, but for two splits that may stand outside their parents.
    pub open spec fn linked_except_two(self, a: int, b: int) -> bool {
        &&& forall|i: int| 0 <= i < self.splits.len() ==> #[trigger] self.children_linked(i)
        &&& forall|i: int|
            0 <= i < self.splits.len() && i != a && i != b && !self.free_splits.contains(i as usize)
                ==> #[trigger] self.parent_linked(i)
    }
}

proof fn lemma_fewer_plain(
    m: NodesView,
    loose: int,
    rank: Seq<nat>,
    p: SplitIdx,
    children: Seq<NodeIdx>,
    focus: int,
    s: SplitIdx,
)
    requires
        m.linked(loose),
        m.ranked(rank),
        p.0 < m.splits.len(),
        forall|y: NodeIdx|
            #[trigger] children.contains(y) <==> m.split(p).children.contains(y) && y
                != NodeIdx::Split(s),
        children.no_duplicates(),
        0 <= focus,
        focus == 0 || focus < children.len(),
    ensures
        ({
            let g = m.with_split(p, SplitView { children, focus, ..m.split(p) });
            &&& g.ranked(rank)
            &&& g.linked_except_two(loose, s.0 as int)
            &&& forall|k: int|
                0 <= k < g.free_splits.len() ==> {
                    &&& #[trigger] g.free_splits[k] < g.splits.len()
                    &&& g.splits[g.free_splits[k] as int].children.len() == 0
                }
        }),
{
    let g = m.with_split(p, SplitView { children, focus, ..m.split(p) });
    let pi = p.0 as int;
    assert(g.ranked(rank)) by {
        assert forall|i: int, k: int|
            0 <= i < g.splits.len() && 0 <= k < g.splits[i].children.len() implies (
        #[trigger] g.splits[i].children[k] matches NodeIdx::Split(c) ==> rank[c.0 as int]
            < rank[i]) by {
            if i == pi {
                let y = children[k];
                assert(children.contains(y));
                let oc = m.splits[pi].children;
                let j = choose|j: int| 0 <= j < oc.len() && oc[j] == y;
                assert(m.splits[pi].children[j] == y);
            } else {
                let _ = m.splits[i].children[k];
            }
        }
    }
    assert forall|i: int| 0 <= i < g.splits.len() implies #[trigger] g.children_linked(i) by {
        assert(m.children_linked(i));
        let c = g.splits[i].children;
        assert forall|k: int| 0 <= k < c.len() implies {
            &&& g.live(#[trigger] c[k])
            &&& g.parent_of(c[k]) == Some(SplitIdx(i as usize))
        } by {
            if i == pi {
                assert(children.contains(c[k]));
                let oc = m.splits[pi].children;
                let j = choose|j: int| 0 <= j < oc.len() && oc[j] == c[k];
                assert(m.live(oc[j]));
            } else {
                assert(m.live(m.splits[i].children[k]));
            }
        }
    }
    assert forall|i: int|
        0 <= i < g.splits.len() && i != loose && i != s.0 && !g.free_splits.contains(
            i as usize,
        ) implies #[trigger] g.parent_linked(i) by {
        assert(m.parent_linked(i));
        assert(g.splits[i].parent == m.splits[i].parent);
        if let Some(q) = m.splits[i].parent {
            let x = NodeIdx::Split(SplitIdx(i as usize));
            assert(m.split(q).children.contains(x));
            if q == p {
                assert(x != NodeIdx::Split(s));
                assert(children.contains(x));
            }
        }
    }
    assert forall|k: int| 0 <= k < g.free_splits.len() implies {
        &&& #[trigger] g.free_splits[k] < g.splits.len()
        &&& g.splits[g.free_splits[k] as int].children.len() == 0
    } by {
        let x = m.free_splits[k] as int;
        if x == pi && children.len() > 0 {
            assert(children.contains(children[0]));
        }
    }
}

/// Pruning keeps a tree linked. With a depth that reaches the root it leaves
/// no empty split below another.
pub proof fn lemma_pruned_linked(
    m: NodesView,
    loose: int,
    rank: Seq<nat>,
    s: SplitIdx,
    depth: nat,
)
    requires
        m.linked(loose),
        m.ranked(rank),
        m.live(NodeIdx::Split(s)),
        loose < 0 || (loose < m.splits.len() && rank[loose] < rank[s.0 as int]),
    ensures
        ({
            let g = m.pruned(s, depth);
            &&& g.linked(loose)
            &&& g.ranked(rank)
            &&& g.roots == m.roots
            &&& g.leaves == m.leaves
            &&& g.free_leaves == m.free_leaves
            &&& g.splits.len() == m.splits.len()
            &&& m.filled_except(s) && depth + rank[s.0 as int] >= m.splits.len() ==> g.filled()
            &&& forall|n: NodeIdx| m.detached(n) ==> #[trigger] g.detached(n)
        }),
    decreases depth,
{
    let si = s.0 as int;
    assert(rank[si] < rank.len());
    if depth == 0 || m.split(s).children.len() > 0 {
        if m.filled_except(s) && m.split(s).children.len() > 0 {
            assert(m.filled());
        }
    } else {
        match m.split(s).parent {
            Some(p) => {
                assert(m.parent_linked(si));
                lemma_only_parent_holds(m, loose, NodeIdx::Split(s), p.0 as int);
                assert(m.live(NodeIdx::Split(p))) by {
                    if m.free_splits.contains(p.0) {
                        let k = choose|k: int| 0 <= k < m.free_splits.len() && m.free_splits[k] == p.0;
                        assert(m.splits[m.free_splits[k] as int].children.len() == 0);
                    }
                }
                lemma_cut_linked(m, loose, rank, s, p);
                let h = m.cut(s, p);
                lemma_pruned_linked(h, loose, rank, p, (depth - 1) as nat);
                assert forall|n: NodeIdx| m.detached(n) implies #[trigger] h.detached(n) by {
                    lemma_cut_detached(m, s, p, n);
                }
            },
            None => {
                if m.filled_except(s) {
                    assert forall|i: int, k: int|
                        0 <= i < m.splits.len() && 0 <= k < m.splits[i].children.len() implies (
                    #[trigger] m.splits[i].children[k] matches NodeIdx::Split(c) ==> m.split(
                        c,
                    ).children.len() > 0) by {
                        assert(m.children_linked(i));
                        let n = m.splits[i].children[k];
                        assert(m.live(n));
                        assert(m.parent_of(n) == Some(SplitIdx(i as usize)));
                    }
                }
            },
        }
    }
}

proof fn lemma_cut_detached(m: NodesView, s: SplitIdx, p: SplitIdx, n: NodeIdx)
    requires
        p.0 < m.splits.len(),
        m.split(p).children.contains(NodeIdx::Split(s)),
        m.detached(n),
    ensures
        m.cut(s, p).detached(n),
{
    let g = m.cut(s, p);
    let oc = m.split(p).children;
    let at = oc.index_of(NodeIdx::Split(s));
    let w = choose|i: int| 0 <= i < oc.len() && oc[i] == NodeIdx::Split(s);
    assert(oc[w] == NodeIdx::Split(s));
    assert forall|i: int| 0 <= i < g.splits.len() implies !(#[trigger] g.splits[i]).children.contains(
        n,
    ) by {
        let _ = m.splits[i];
        if i == p.0 && g.splits[i].children.contains(n) {
            let c = g.splits[i].children;
            let k = choose|k: int| 0 <= k < c.len() && c[k] == n;
            if k < at {
                assert(oc[k] == n);
            } else {
                assert(oc[k + 1] == n);
            }
            assert(m.splits[i].children.contains(n));
        }
    }
}

/// A live leaf that no split holds can be freed.
pub proof fn lemma_freed_leaf_linked(m: NodesView, l: LeafIdx)
    requires
        m.linked(-1),
        m.live(NodeIdx::Leaf(l)),
        m.detached(NodeIdx::Leaf(l)),
    ensures
        m.freed(NodeIdx::Leaf(l)).linked(-1),
        m.filled() ==> m.freed(NodeIdx::Leaf(l)).filled(),
{
    let g = m.freed(NodeIdx::Leaf(l));
    let rank = choose|rank: Seq<nat>| m.ranked(rank);
    assert(g.ranked(rank)) by {
        assert forall|i: int, k: int|
            0 <= i < g.splits.len() && 0 <= k < g.splits[i].children.len() implies (
        #[trigger] g.splits[i].children[k] matches NodeIdx::Split(c) ==> rank[c.0 as int]
            < rank[i]) by {
            let _ = m.splits[i].children[k];
        }
    }
    assert forall|i: int| 0 <= i < g.splits.len() implies #[trigger] g.children_linked(i) by {
        assert(m.children_linked(i));
        let c = m.splits[i].children;
        assert forall|k: int| 0 <= k < c.len() implies {
            &&& g.live(#[trigger] c[k])
            &&& g.parent_of(c[k]) == Some(SplitIdx(i as usize))
        } by {
            assert(m.live(c[k]));
            assert(c.contains(c[k]));
            if g.is_free(c[k]) {
                if let NodeIdx::Leaf(x) = c[k] {
                    let j = choose|j: int| 0 <= j < g.free_leaves.len() && g.free_leaves[j] == x.0;
                    if j < m.free_leaves.len() {
                        assert(m.free_leaves[j] == x.0);
                    }
                }
            }
        }
    }
    assert forall|i: int|
        0 <= i < g.splits.len() && !g.free_splits.contains(
            i as usize,
        ) implies #[trigger] g.parent_linked(i) by {
        assert(m.parent_linked(i));
    }
    assert forall|k: int| 0 <= k < g.roots.len() implies {
        &&& g.live(NodeIdx::Split(#[trigger] g.roots[k]))
        &&& g.split(g.roots[k]).parent is None
    } by {
        assert(m.live(NodeIdx::Split(m.roots[k])));
    }
    assert(g.free_leaves.no_duplicates()) by {
        assert forall|a: int, b: int|
            0 <= a < g.free_leaves.len() && 0 <= b < g.free_leaves.len() && a != b implies
            g.free_leaves[a] != g.free_leaves[b] by {
            if a < m.free_leaves.len() && b < m.free_leaves.len() {
                assert(m.free_leaves[a] != m.free_leaves[b]);
            } else if a < m.free_leaves.len() {
                assert(m.free_leaves.contains(m.free_leaves[a]));
            } else if b < m.free_leaves.len() {
                assert(m.free_leaves.contains(m.free_leaves[b]));
            }
        }
    }
    if m.filled() {
        assert forall|i: int, k: int|
            0 <= i < g.splits.len() && 0 <= k < g.splits[i].children.len() implies (
        #[trigger] g.splits[i].children[k] matches NodeIdx::Split(c) ==> g.split(c).children.len()
            > 0) by {
            let _ = m.splits[i].children[k];
        }
    }
}

/// Where a linked, filled tree has children, the focus leads to a leaf of it.
pub proof fn lemma_follow_reaches(
    m: NodesView,
    loose: int,
    rank: Seq<nat>,
    s: SplitIdx,
    depth: nat,
)
    requires
        m.linked(loose),
        m.filled(),
        m.ranked(rank),
        s.0 < m.splits.len(),
        m.split(s).children.len() > 0,
        rank[s.0 as int] < depth,
    ensures
        m.follow(NodeIdx::Split(s), depth) matches Some(l) && m.live(NodeIdx::Leaf(l))
            && m.split(m.leaf(l).parent).children.contains(NodeIdx::Leaf(l)),
    decreases depth,
{
    let si = s.0 as int;
    assert(m.children_linked(si));
    let v = m.splits[si];
    let n = v.children[v.focus];
    assert(m.live(n));
    match n {
        NodeIdx::Split(c) => {
            assert(m.splits[si].children[v.focus] == n);
            lemma_follow_reaches(m, loose, rank, c, (depth - 1) as nat);
            assert(m.follow(NodeIdx::Split(s), depth) == m.follow(n, (depth - 1) as nat));
        },
        NodeIdx::Leaf(l) => {
            assert(m.leaf(l).parent == s);
        },
    }
}

/// A node that the focus leads to is a node of the tree.
pub proof fn lemma_follow_in(m: NodesView, n: NodeIdx, depth: nat)
    requires
        m.sound(),
        m.has(n),
    ensures
        m.follow(n, depth) matches Some(l) ==> m.has(NodeIdx::Leaf(l)),
    decreases depth,
{
    if let NodeIdx::Split(s) = n {
        let v = m.splits[s.0 as int];
        if depth > 0 && 0 <= v.focus < v.children.len() {
            assert(m.has(m.splits[s.0 as int].children[v.focus]));
            lemma_follow_in(m, v.children[v.focus], (depth - 1) as nat);
        }
    }
}

/// Another focus among the children keeps a tree linked.
pub proof fn lemma_with_focus_linked(m: NodesView, loose: int, s: SplitIdx, focus: int)
    requires
        m.linked(loose),
        s.0 < m.splits.len(),
        0 <= focus,
        focus == 0 || focus < m.split(s).children.len(),
    ensures
        m.with_focus(s, focus).linked(loose),
        m.filled() ==> m.with_focus(s, focus).filled(),
        forall|rank: Seq<nat>| m.ranked(rank) ==> #[trigger] m.with_focus(s, focus).ranked(rank),
{
    let g = m.with_focus(s, focus);
    assert forall|rank: Seq<nat>| m.ranked(rank) implies #[trigger] g.ranked(rank) by {
        assert forall|i: int, k: int|
            0 <= i < g.splits.len() && 0 <= k < g.splits[i].children.len() implies (
        #[trigger] g.splits[i].children[k] matches NodeIdx::Split(c) ==> rank[c.0 as int]
            < rank[i]) by {
            let _ = m.splits[i].children[k];
        }
    }
    let rank = choose|rank: Seq<nat>| m.ranked(rank);
    assert(g.ranked(rank));
    assert forall|i: int| 0 <= i < g.splits.len() implies #[trigger] g.children_linked(i) by {
        assert(m.children_linked(i));
        let c = m.splits[i].children;
        assert(g.splits[i].children == c);
        assert forall|k: int| 0 <= k < c.len() implies {
            &&& g.live(#[trigger] c[k])
            &&& g.parent_of(c[k]) == Some(SplitIdx(i as usize))
        } by {
            assert(m.live(c[k]));
        }
    }
    assert forall|i: int|
        0 <= i < g.splits.len() && i != loose && !g.free_splits.contains(
            i as usize,
        ) implies #[trigger] g.parent_linked(i) by {
        assert(m.parent_linked(i));
    }
    assert forall|k: int| 0 <= k < g.roots.len() implies {
        &&& g.live(NodeIdx::Split(#[trigger] g.roots[k]))
        &&& g.split(g.roots[k]).parent is None
    } by {
        assert(m.live(NodeIdx::Split(m.roots[k])));
    }
    assert forall|k: int| 0 <= k < g.free_splits.len() implies {
        &&& #[trigger] g.free_splits[k] < g.splits.len()
        &&& g.splits[g.free_splits[k] as int].children.len() == 0
    } by {
        let _ = m.free_splits[k];
    }
    assert forall|i: int| 0 <= i < g.leaves.len() implies (#[trigger] g.leaves[i]).parent.0
        < g.splits.len() by {
        let _ = m.leaves[i];
    }
    if m.filled() {
        assert forall|i: int, k: int|
            0 <= i < g.splits.len() && 0 <= k < g.splits[i].children.len() implies (
        #[trigger] g.splits[i].children[k] matches NodeIdx::Split(c) ==> g.split(c).children.len()
            > 0) by {
            assert(m.children_linked(i));
            assert(m.live(m.splits[i].children[k]));
        }
    }
}

/// Nodes that nobody holds stay so when the tree is laid out.
pub proof fn lemma_moved_detached(a: NodesView, b: NodesView, n: NodeIdx)
    requires
        a.moved(b),
        a.detached(n),
    ensures
        b.detached(n),
        a.live(n) ==> b.live(n),
{
    assert forall|i: int| 0 <= i < b.splits.len() implies !(#[trigger] b.splits[i]).children.contains(
        n,
    ) by {
        let _ = a.splits[i];
    }
}

/// A live leaf that nobody holds stays so when another is planted.
pub proof fn lemma_planted_detached(
    m: NodesView,
    loose: int,
    comp: ComponentView,
    parent: SplitIdx,
    constraints: ConstraintsView,
    anchors: AnchorsView,
    n: NodeIdx,
)
    requires
        m.linked(loose),
        m.planted(comp, parent, constraints, anchors).leaves.len() <= usize::MAX,
        parent.0 < m.splits.len(),
        n is Leaf,
        m.live(n),
        m.detached(n),
    ensures
        m.planted(comp, parent, constraints, anchors).live(n),
        m.planted(comp, parent, constraints, anchors).detached(n),
{
    let g = m.planted(comp, parent, constraints, anchors);
    let x = NodeIdx::Leaf(m.new_leaf_idx());
    assert(n != x) by {
        if m.free_leaves.len() > 0 {
            assert(m.free_leaves.contains(m.free_leaves[m.free_leaves.len() - 1]));
        }
    }
    assert(g.live(n)) by {
        if g.is_free(n) {
            let l = n->Leaf_0.0;
            let k = choose|k: int| 0 <= k < g.free_leaves.len() && g.free_leaves[k] == l;
            assert(m.free_leaves[k] == l);
            assert(m.free_leaves.contains(l));
        }
    }
    assert forall|i: int| 0 <= i < g.splits.len() implies !(#[trigger] g.splits[i]).children.contains(
        n,
    ) by {
        let was = m.splits[i].children;
        if g.splits[i].children.contains(n) {
            let c = g.splits[i].children;
            let k = choose|k: int| 0 <= k < c.len() && c[k] == n;
            assert(was[k] == n);
            assert(m.splits[i].children.contains(n));
        }
    }
}

} // verus!
