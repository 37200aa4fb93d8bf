//! Trees whose layout never leaves the screen.
//!
//! Where no node asks for a least width, and no anchor lies outside the
//! parent, a split shares out no more than it has: what it gives to its
//! children lies inside it, and all of it can be counted in `u16`.
use vstd::prelude::*;
use crate::divide;
use crate::divide::Slot;
use crate::layout;
use crate::layout::{AnchorsView, ConstraintsView, Dimension, Direction, Position, Rect};
use crate::tree::{NodeIdx, NodesView, SplitIdx};
use crate::tree_layout;

verus! {

// ---- what is shared out

/// The sum of the first `n` sizes.
pub open spec fn total(slots: Seq<Slot>, n: int) -> int
    decreases n,
{
    if n <= 0 {
        0
    } else {
        total(slots, n - 1) + slots[n - 1].size
    }
}

pub open spec fn sizes_nonneg(slots: Seq<Slot>) -> bool {
    forall|k: int| 0 <= k < slots.len() ==> (#[trigger] slots[k]).size >= 0
}

proof fn lemma_total_update(slots: Seq<Slot>, i: int, v: Slot, n: int)
    requires
        0 <= i < slots.len(),
        0 <= n <= slots.len(),
    ensures
        total(slots.update(i, v), n) == total(slots, n) + (if i < n {
            v.size - slots[i].size
        } else {
            0
        }),
    decreases n,
{
    if n > 0 {
        lemma_total_update(slots, i, v, n - 1);
    }
}

proof fn lemma_total_ordered(slots: Seq<Slot>, j: int, n: int)
    requires
        sizes_nonneg(slots),
        0 <= j <= n <= slots.len(),
    ensures
        0 <= total(slots, j) <= total(slots, n),
    decreases n,
{
    if j < n {
        lemma_total_ordered(slots, j, n - 1);
        assert(slots[n - 1].size >= 0);
    } else if n > 0 {
        lemma_total_ordered(slots, n - 1, n - 1);
        assert(slots[n - 1].size >= 0);
    }
}

pub open spec fn takers_in(takers: Seq<int>, n: int) -> bool {
    forall|k: int| 0 <= k < takers.len() ==> 0 <= #[trigger] takers[k] < n
}

pub proof fn lemma_round_total(
    slots: Seq<Slot>,
    maxes: Seq<Option<int>>,
    takers: Seq<int>,
    per: int,
    at: int,
    space: int,
)
    requires
        0 <= at <= takers.len(),
        per > 0,
        per * (takers.len() - at) <= space,
        sizes_nonneg(slots),
        takers_in(takers, slots.len() as int),
    ensures
        ({
            let r = divide::offer_round(slots, maxes, takers, per, at, space);
            let n = slots.len() as int;
            &&& r.slots.len() == slots.len()
            &&& sizes_nonneg(r.slots)
            &&& total(r.slots, n) + r.space == total(slots, n) + space
        }),
    decreases takers.len() - at,
{
    if at < takers.len() {
        let i = takers[at];
        let add = divide::granted(slots[i].size, maxes[i], per);
        let size = slots[i].size + add;
        let v = Slot { size, seen: true };
        let n = slots.len() as int;
        assert(per * (takers.len() - at) == per + per * (takers.len() - at - 1))
            by (nonlinear_arith);
        assert(per * (takers.len() - at - 1) >= 0) by (nonlinear_arith)
            requires
                takers.len() - at >= 1,
                per > 0,
        ;
        assert(slots[i].size >= 0);
        assert(0 <= add <= per);
        lemma_total_update(slots, i, v, n);
        let slots2 = slots.update(i, v);
        assert(sizes_nonneg(slots2));
        if !divide::is_full(size, maxes[i]) {
            lemma_round_total(slots2, maxes, takers, per, at + 1, divide::monus(space, add));
        }
    }
}

pub proof fn lemma_share_total(
    slots: Seq<Slot>,
    maxes: Seq<Option<int>>,
    takers: Seq<int>,
    space: int,
)
    requires
        space >= 0,
        sizes_nonneg(slots),
        takers_in(takers, slots.len() as int),
    ensures
        ({
            let r = divide::share_out(slots, maxes, takers, space);
            let n = slots.len() as int;
            &&& r.len() == slots.len()
            &&& sizes_nonneg(r)
            &&& total(r, n) <= total(slots, n) + space
        }),
    decreases takers.len() + space,
{
    if space == 0 || takers.len() == 0 || space / (takers.len() as int) == 0 {
    } else {
        let per = space / (takers.len() as int);
        divide::lemma_share_positive(space, takers.len() as int);
        divide::lemma_round_uses_space(slots, maxes, takers, per, 0, space);
        assert(per * (takers.len() - 0) == per * (takers.len() as int));
        lemma_round_total(slots, maxes, takers, per, 0, space);
        let r = divide::offer_round(slots, maxes, takers, per, 0, space);
        match r.full {
            Some(j) => {
                let rest = takers.remove(j);
                assert(takers_in(rest, slots.len() as int)) by {
                    assert forall|k: int| 0 <= k < rest.len() implies 0 <= #[trigger] rest[k]
                        < slots.len() by {
                        if k < j {
                            let _ = takers[k];
                        } else {
                            let _ = takers[k + 1];
                        }
                    }
                }
                lemma_share_total(r.slots, maxes, rest, r.space);
            },
            None => lemma_share_total(r.slots, maxes, takers, r.space),
        }
    }
}

/// No child asks for a least size.
pub open spec fn no_least(mins: Seq<Option<int>>) -> bool {
    forall|k: int| 0 <= k < mins.len() ==> (#[trigger] mins[k]) is None
}

pub proof fn lemma_free_space(mins: Seq<Option<int>>, extent: int)
    requires
        no_least(mins),
    ensures
        divide::free_space(mins, extent) == extent,
    decreases mins.len(),
{
    if mins.len() > 0 {
        assert(mins[mins.len() - 1] is None);
        assert(no_least(mins.drop_last())) by {
            assert forall|k: int| 0 <= k < mins.drop_last().len() implies (
            #[trigger] mins.drop_last()[k]) is None by {
                let _ = mins[k];
            }
        }
        lemma_free_space(mins.drop_last(), extent);
    }
}

pub proof fn lemma_total_zero(slots: Seq<Slot>, n: int)
    requires
        0 <= n <= slots.len(),
        forall|k: int| 0 <= k < slots.len() ==> (#[trigger] slots[k]).size == 0,
    ensures
        total(slots, n) == 0,
    decreases n,
{
    if n > 0 {
        lemma_total_zero(slots, n - 1);
        assert(slots[n - 1].size == 0);
    }
}

/// Where no child asks for a least size, the children get no more than there
/// is.
pub proof fn law_no_more_than_there_is(
    mins: Seq<Option<int>>,
    maxes: Seq<Option<int>>,
    extent: int,
)
    requires
        no_least(mins),
        extent >= 0,
    ensures
        ({
            let slots = divide::divided(mins, maxes, extent);
            &&& slots.len() == mins.len()
            &&& sizes_nonneg(slots)
            &&& total(slots, mins.len() as int) <= extent
        }),
{
    let first = divide::least_slots(mins);
    let takers = divide::ordinals(mins.len());
    assert forall|k: int| 0 <= k < first.len() implies (#[trigger] first[k]).size == 0 by {
        assert(mins[k] is None);
    }
    lemma_total_zero(first, first.len() as int);
    lemma_free_space(mins, extent);
    lemma_share_total(first, maxes, takers, extent);
}

pub proof fn lemma_line_up(slots: Seq<Slot>, anchored: Seq<Option<int>>, n: int)
    requires
        sizes_nonneg(slots),
        0 <= n <= slots.len(),
    ensures
        0 <= divide::line_up(slots, anchored, n) <= total(slots, n),
    decreases n,
{
    if n > 0 {
        lemma_line_up(slots, anchored, n - 1);
        assert(slots[n - 1].size >= 0);
    }
}

// ---- tame nodes

/// The size can be worked out for any parent.
pub open spec fn sized(dims: Option<Seq<Dimension>>) -> bool {
    forall|size: int| 0 <= size <= u16::MAX ==> #[trigger] layout::option_extent_fits(dims, size)
}

/// The place can be worked out for any parent and lies inside it.
pub open spec fn inside(terms: Option<Seq<Position>>) -> bool {
    forall|size: int|
        #![trigger layout::option_offset_fits(terms, size)]
        #![trigger layout::option_offset(terms, size)]
        0 <= size <= u16::MAX ==> {
            &&& layout::option_offset_fits(terms, size)
            &&& layout::option_offset(terms, size) matches Some(o) ==> 0 <= o <= size
        }
}

pub open spec fn tame_node(c: ConstraintsView, a: AnchorsView) -> bool {
    &&& c.min_width is None
    &&& sized(c.max_width)
    &&& sized(c.max_height)
    &&& inside(a.x)
    &&& inside(a.y)
}

/// The right and the bottom edge of a rectangle can be counted in `u16`.
pub open spec fn boxed(r: Rect) -> bool {
    r.x + r.w <= u16::MAX && r.y + r.h <= u16::MAX
}

/// A rectangle lies inside another.
pub open spec fn within(r: Rect, outer: Rect) -> bool {
    &&& outer.x <= r.x
    &&& outer.y <= r.y
    &&& r.x + r.w <= outer.x + outer.w
    &&& r.y + r.h <= outer.y + outer.h
}

impl NodesView {
    pub open spec fn tame(self) -> bool {
        &&& forall|i: int|
            0 <= i < self.splits.len() ==> {
                &&& tame_node((#[trigger] self.splits[i]).constraints, self.splits[i].anchors)
                &&& self.splits[i].anchors == AnchorsView::free()
            }
        &&& forall|i: int|
            0 <= i < self.leaves.len() ==> tame_node(
                (#[trigger] self.leaves[i]).constraints,
                self.leaves[i].anchors,
            )
    }

    /// No split has more children than can be counted in `u16`.
    pub open spec fn sparse(self) -> bool {
        forall|i: int|
            0 <= i < self.splits.len() ==> (#[trigger] self.splits[i]).children.len() <= u16::MAX
    }

    /// All splits are where they can be divided.
    pub open spec fn all_boxed(self) -> bool {
        forall|i: int| 0 <= i < self.splits.len() ==> boxed((#[trigger] self.splits[i]).rect)
    }

    /// The roots start in the corner of the screen.
    pub open spec fn cornered(self) -> bool {
        forall|k: int|
            0 <= k < self.roots.len() ==> {
                &&& self.split(#[trigger] self.roots[k]).rect.x == 0
                &&& self.split(self.roots[k]).rect.y == 0
            }
    }

    /// A tree that can be laid out from any split.
    pub open spec fn orderly(self) -> bool {
        self.tame() && self.sparse() && self.all_boxed()
    }
}

proof fn lemma_tame_child(m: NodesView, n: NodeIdx)
    requires
        m.tame(),
        m.has(n),
    ensures
        tame_node(m.constraints_of(n), m.anchors_of(n)),
        n is Split ==> m.anchors_of(n) == AnchorsView::free(),
{
    match n {
        NodeIdx::Leaf(l) => {
            let _ = m.leaves[l.0 as int];
        },
        NodeIdx::Split(s) => {
            let _ = m.splits[s.0 as int];
        },
    }
}

/// The division of a split stays within `u16`, and a child without anchors
/// gets a place inside the split.
pub proof fn law_division(m: NodesView, s: SplitIdx)
    requires
        m.tame(),
        s.0 < m.splits.len(),
        m.has_all(m.split(s).children),
        m.split(s).children.len() <= u16::MAX,
        boxed(m.split(s).rect),
    ensures
        m.division_fits(s),
        m.child_rects(s).len() == m.split(s).children.len(),
        forall|k: int|
            0 <= k < m.split(s).children.len() && m.anchors_of(m.split(s).children[k])
                == AnchorsView::free() ==> within(#[trigger] m.child_rects(s)[k], m.split(s).rect),
{
    let v = m.split(s);
    let mins = m.least_sizes(s);
    let maxes = m.greatest_sizes(s);
    let across = m.anchors_across(s);
    let along = m.anchors_along(s);
    let extent = divide::main_extent(v.direction, v.rect);
    let slots = divide::divided(mins, maxes, extent);
    let n = v.children.len() as int;
    assert forall|k: int| 0 <= k < mins.len() implies (#[trigger] mins[k]) is None by {
        lemma_tame_child(m, v.children[k]);
    }
    law_no_more_than_there_is(mins, maxes, extent);
    assert forall|k: int| 0 <= k < n implies m.asks_fit(s, #[trigger] v.children[k]) by {
        lemma_tame_child(m, v.children[k]);
    }
    assert forall|i: int| 0 <= i < slots.len() implies divide::placed_fits(
        v.direction,
        v.rect,
        slots,
        across,
        along,
        i,
    ) by {
        lemma_tame_child(m, v.children[i]);
        lemma_line_up(slots, along, i);
        lemma_line_up(slots, along, i + 1);
        lemma_total_ordered(slots, i, n);
        lemma_total_ordered(slots, i + 1, n);
        let a = m.anchors_of(v.children[i]);
        assert(layout::option_offset_fits(a.y, v.rect.h as int));
        assert(layout::option_offset_fits(a.x, v.rect.w as int));
    }
    assert forall|k: int| 0 <= k < n && m.anchors_of(v.children[k]) == AnchorsView::free() implies
        within(#[trigger] m.child_rects(s)[k], v.rect) by {
        lemma_line_up(slots, along, k);
        lemma_line_up(slots, along, k + 1);
        lemma_total_ordered(slots, k, n);
        lemma_total_ordered(slots, k + 1, n);
        assert(along[k] is None);
        assert(across[k] is None);
        assert(slots[k].size >= 0);
        assert(m.child_rects(s)[k] == divide::placed(v.direction, v.rect, slots, across, along, k));
    }
}

/// Children without anchors do not overlap: each ends before the next starts.
pub proof fn law_no_overlap(m: NodesView, s: SplitIdx, j: int, k: int)
    requires
        m.tame(),
        s.0 < m.splits.len(),
        m.has_all(m.split(s).children),
        m.split(s).children.len() <= u16::MAX,
        boxed(m.split(s).rect),
        0 <= j < k < m.split(s).children.len(),
        m.anchors_of(m.split(s).children[j]) == AnchorsView::free(),
        m.anchors_of(m.split(s).children[k]) == AnchorsView::free(),
    ensures
        ({
            let a = m.child_rects(s)[j];
            let b = m.child_rects(s)[k];
            match m.split(s).direction {
                Direction::Vertical => a.x + a.w <= b.x,
                Direction::Horizontal => a.y + a.h <= b.y,
            }
        }),
{
    law_division(m, s);
    let v = m.split(s);
    let mins = m.least_sizes(s);
    let maxes = m.greatest_sizes(s);
    let across = m.anchors_across(s);
    let along = m.anchors_along(s);
    let extent = divide::main_extent(v.direction, v.rect);
    let slots = divide::divided(mins, maxes, extent);
    assert forall|i: int| 0 <= i < mins.len() implies (#[trigger] mins[i]) is None by {
        lemma_tame_child(m, v.children[i]);
    }
    law_no_more_than_there_is(mins, maxes, extent);
    let n = v.children.len() as int;
    lemma_line_up_ordered(slots, along, j + 1, k);
    lemma_line_up(slots, along, j);
    lemma_line_up(slots, along, k);
    lemma_total_ordered(slots, j, n);
    lemma_total_ordered(slots, k, n);
    lemma_line_up(slots, along, j + 1);
    lemma_total_ordered(slots, j + 1, n);
    assert(along[j] is None && along[k] is None);
    assert(slots[j].size >= 0);
    assert(m.child_rects(s)[j] == divide::placed(v.direction, v.rect, slots, across, along, j));
    assert(m.child_rects(s)[k] == divide::placed(v.direction, v.rect, slots, across, along, k));
}

pub proof fn lemma_line_up_ordered(slots: Seq<Slot>, anchored: Seq<Option<int>>, j: int, k: int)
    requires
        sizes_nonneg(slots),
        0 <= j <= k <= slots.len(),
    ensures
        divide::line_up(slots, anchored, j) <= divide::line_up(slots, anchored, k),
    decreases k,
{
    if j < k {
        lemma_line_up_ordered(slots, anchored, j, k - 1);
        assert(slots[k - 1].size >= 0);
    }
}

// ---- laying out a tree

/// A node gets the rectangle at its place in the list.
pub proof fn lemma_with_rects_at(m: NodesView, nodes: Seq<NodeIdx>, rects: Seq<Rect>, k: int)
    requires
        m.has_all(nodes),
        nodes.no_duplicates(),
        0 <= k < nodes.len(),
    ensures
        m.with_rects(nodes, rects).rect_of(nodes[k]) == rects[k],
    decreases nodes.len(),
{
    let rest = nodes.drop_last();
    assert forall|j: int| 0 <= j < rest.len() implies m.has(#[trigger] rest[j]) by {
        let _ = nodes[j];
    }
    tree_layout::lemma_with_rects_moved(m, rest, rects);
    assert(m.has(nodes[nodes.len() - 1]));
    assert(m.has(nodes[k]));
    if k < rest.len() {
        assert(rest.no_duplicates()) by {
            assert forall|a: int, b: int|
                0 <= a < rest.len() && 0 <= b < rest.len() && a != b implies rest[a]
                != rest[b] by {
                assert(nodes[a] != nodes[b]);
            }
        }
        lemma_with_rects_at(m, rest, rects, k);
        assert(nodes[k] != nodes[nodes.len() - 1]);
    }
}

/// A node outside the list keeps its rectangle.
pub proof fn lemma_with_rects_other(m: NodesView, nodes: Seq<NodeIdx>, rects: Seq<Rect>, n: NodeIdx)
    requires
        m.has_all(nodes),
        m.has(n),
        !nodes.contains(n),
    ensures
        m.with_rects(nodes, rects).rect_of(n) == m.rect_of(n),
    decreases nodes.len(),
{
    if nodes.len() > 0 {
        let rest = nodes.drop_last();
        assert forall|j: int| 0 <= j < rest.len() implies m.has(#[trigger] rest[j]) by {
            let _ = nodes[j];
        }
        assert(!rest.contains(n)) by {
            if rest.contains(n) {
                let j = choose|j: int| 0 <= j < rest.len() && rest[j] == n;
                assert(nodes[j] == n);
            }
        }
        tree_layout::lemma_with_rects_moved(m, rest, rects);
        lemma_with_rects_other(m, rest, rects, n);
        assert(m.has(nodes[nodes.len() - 1]));
        assert(nodes[nodes.len() - 1] != n);
    }
}

/// A node whose parent stands above a split keeps its rectangle when that
/// split is laid out.
proof fn lemma_relayout_keeps(
    m: NodesView,
    loose: int,
    rank: Seq<nat>,
    s: SplitIdx,
    depth: nat,
    n: NodeIdx,
)
    requires
        m.linked(loose),
        m.ranked(rank),
        s.0 < m.splits.len(),
        m.has(n),
        m.parent_of(n) matches Some(q) ==> q.0 < m.splits.len() && rank[s.0 as int]
            < rank[q.0 as int],
    ensures
        m.relayout(s, depth).rect_of(n) == m.rect_of(n),
    decreases depth, 0nat,
{
    if depth > 0 {
        let si = s.0 as int;
        let children = m.split(s).children;
        let rects = m.child_rects(s);
        assert(m.children_linked(si));
        tree_layout::lemma_linked_sound(m, loose);
        assert forall|k: int| 0 <= k < children.len() implies m.has(#[trigger] children[k]) by {
            assert(m.live(children[k]));
        }
        let placed = m.with_rects(children, rects);
        tree_layout::lemma_with_rects_moved(m, children, rects);
        if children.contains(n) {
            let k = choose|k: int| 0 <= k < children.len() && children[k] == n;
            assert(m.parent_of(children[k]) == Some(s));
        }
        lemma_with_rects_other(m, children, rects, n);
        tree_layout::lemma_moved_linked(m, placed, loose);
        tree_layout::lemma_moved_ranked(m, placed, rank);
        assert forall|k: int| 0 <= k < children.len() implies (
        #[trigger] children[k] matches NodeIdx::Split(c) ==> rank[c.0 as int] < rank[si]) by {
            assert(m.splits[si].children[k] == children[k]);
        }
        lemma_moved_parent(m, placed, n);
        lemma_relayout_each_keeps(placed, loose, rank, children, rank[si], (depth - 1) as nat, n);
    }
}

pub proof fn lemma_moved_parent(a: NodesView, b: NodesView, n: NodeIdx)
    requires
        a.moved(b),
        a.has(n),
    ensures
        b.has(n),
        b.parent_of(n) == a.parent_of(n),
        b.constraints_of(n) == a.constraints_of(n),
        b.anchors_of(n) == a.anchors_of(n),
{
    match n {
        NodeIdx::Leaf(l) => {
            let _ = b.leaves[l.0 as int];
        },
        NodeIdx::Split(s) => {
            let _ = b.splits[s.0 as int];
        },
    }
}

proof fn lemma_relayout_each_keeps(
    m: NodesView,
    loose: int,
    rank: Seq<nat>,
    nodes: Seq<NodeIdx>,
    below: nat,
    depth: nat,
    n: NodeIdx,
)
    requires
        m.linked(loose),
        m.ranked(rank),
        m.has_all(nodes),
        forall|k: int|
            0 <= k < nodes.len() ==> (#[trigger] nodes[k] matches NodeIdx::Split(c)
                ==> rank[c.0 as int] < below),
        m.has(n),
        m.parent_of(n) matches Some(q) ==> q.0 < m.splits.len() && below <= rank[q.0 as int],
    ensures
        m.relayout_each(nodes, depth).rect_of(n) == m.rect_of(n),
    decreases depth, nodes.len() + 1,
{
    if nodes.len() > 0 {
        let rest = nodes.drop_last();
        assert forall|j: int| 0 <= j < rest.len() implies m.has(#[trigger] rest[j]) by {
            let _ = nodes[j];
        }
        assert forall|k: int| 0 <= k < rest.len() implies (
        #[trigger] rest[k] matches NodeIdx::Split(c) ==> rank[c.0 as int] < below) by {
            let _ = nodes[k];
        }
        lemma_relayout_each_keeps(m, loose, rank, rest, below, depth, n);
        tree_layout::lemma_linked_sound(m, loose);
        tree_layout::lemma_relayout_each_moved(m, rest, depth);
        let mid = m.relayout_each(rest, depth);
        let last = nodes[nodes.len() - 1];
        assert(m.has(last));
        if let NodeIdx::Split(c) = last {
            tree_layout::lemma_moved_linked(m, mid, loose);
            tree_layout::lemma_moved_ranked(m, mid, rank);
            lemma_moved_parent(m, mid, n);
            lemma_relayout_keeps(mid, loose, rank, c, depth, n);
        }
    }
}

proof fn lemma_moved_orderly(a: NodesView, b: NodesView)
    requires
        a.moved(b),
        a.tame(),
        a.sparse(),
    ensures
        b.tame(),
        b.sparse(),
{
    assert forall|i: int| 0 <= i < b.splits.len() implies {
        &&& tame_node((#[trigger] b.splits[i]).constraints, b.splits[i].anchors)
        &&& b.splits[i].anchors == AnchorsView::free()
    } by {
        let _ = a.splits[i];
    }
    assert forall|i: int| 0 <= i < b.leaves.len() implies tame_node(
        (#[trigger] b.leaves[i]).constraints,
        b.leaves[i].anchors,
    ) by {
        let _ = a.leaves[i];
    }
    assert forall|i: int| 0 <= i < b.splits.len() implies (#[trigger] b.splits[i]).children.len()
        <= u16::MAX by {
        let _ = a.splits[i];
    }
}

/// An orderly tree can be laid out from any split, and stays orderly.
pub proof fn law_layout(m: NodesView, loose: int, s: SplitIdx)
    requires
        m.linked(loose),
        m.orderly(),
        s.0 < m.splits.len(),
    ensures
        m.layout_fits(s),
        m.laid_out(s).orderly(),
        m.moved(m.laid_out(s)),
        m.laid_out(s).linked(loose),
        m.filled() ==> m.laid_out(s).filled(),
        m.cornered() ==> m.laid_out(s).cornered(),
{
    let rank = choose|rank: Seq<nat>| m.ranked(rank);
    lemma_layout(m, loose, rank, s, m.splits.len());
    tree_layout::lemma_linked_sound(m, loose);
    tree_layout::lemma_relayout_moved(m, s, m.splits.len());
    tree_layout::lemma_moved_linked(m, m.laid_out(s), loose);
    if m.filled() {
        tree_layout::lemma_moved_filled(m, m.laid_out(s));
    }
    let g = m.laid_out(s);
    if m.cornered() {
        assert forall|k: int| 0 <= k < g.roots.len() implies {
            &&& g.split(#[trigger] g.roots[k]).rect.x == 0
            &&& g.split(g.roots[k]).rect.y == 0
        } by {
            let r = m.roots[k];
            assert(m.live(NodeIdx::Split(r)));
            lemma_relayout_keeps(m, loose, rank, s, m.splits.len(), NodeIdx::Split(r));
        }
    }
}

proof fn lemma_layout(m: NodesView, loose: int, rank: Seq<nat>, s: SplitIdx, depth: nat)
    requires
        m.linked(loose),
        m.ranked(rank),
        m.orderly(),
        s.0 < m.splits.len(),
    ensures
        m.relayout_fits(s, depth),
        m.relayout(s, depth).orderly(),
    decreases depth, 0nat,
{
    if depth > 0 {
        let si = s.0 as int;
        let v = m.splits[si];
        let children = m.split(s).children;
        let rects = m.child_rects(s);
        assert(m.children_linked(si));
        tree_layout::lemma_linked_sound(m, loose);
        assert forall|k: int| 0 <= k < children.len() implies m.has(#[trigger] children[k]) by {
            assert(m.live(children[k]));
        }
        law_division(m, s);
        let placed = m.with_rects(children, rects);
        tree_layout::lemma_with_rects_moved(m, children, rects);
        lemma_moved_orderly(m, placed);
        assert forall|i: int| 0 <= i < placed.splits.len() implies boxed(
            (#[trigger] placed.splits[i]).rect,
        ) by {
            let n = NodeIdx::Split(SplitIdx(i as usize));
            assert(boxed(m.splits[i].rect));
            assert(placed.rect_of(n) == placed.splits[i].rect);
            if children.contains(n) {
                let k = choose|k: int| 0 <= k < children.len() && children[k] == n;
                lemma_with_rects_at(m, children, rects, k);
                lemma_tame_child(m, n);
                assert(within(m.child_rects(s)[k], m.split(s).rect));
            } else {
                lemma_with_rects_other(m, children, rects, n);
            }
        }
        tree_layout::lemma_moved_linked(m, placed, loose);
        tree_layout::lemma_moved_ranked(m, placed, rank);
        lemma_layout_each(placed, loose, rank, children, (depth - 1) as nat);
    }
}

proof fn lemma_layout_each(
    m: NodesView,
    loose: int,
    rank: Seq<nat>,
    nodes: Seq<NodeIdx>,
    depth: nat,
)
    requires
        m.linked(loose),
        m.ranked(rank),
        m.orderly(),
        m.has_all(nodes),
    ensures
        m.relayout_each_fits(nodes, depth),
        m.relayout_each(nodes, depth).orderly(),
    decreases depth, nodes.len() + 1,
{
    if nodes.len() > 0 {
        let rest = nodes.drop_last();
        assert forall|j: int| 0 <= j < rest.len() implies m.has(#[trigger] rest[j]) by {
            let _ = nodes[j];
        }
        lemma_layout_each(m, loose, rank, rest, depth);
        tree_layout::lemma_linked_sound(m, loose);
        tree_layout::lemma_relayout_each_moved(m, rest, depth);
        let mid = m.relayout_each(rest, depth);
        let last = nodes[nodes.len() - 1];
        assert(m.has(last));
        if let NodeIdx::Split(c) = last {
            tree_layout::lemma_moved_linked(m, mid, loose);
            tree_layout::lemma_moved_ranked(m, mid, rank);
            lemma_layout(mid, loose, rank, c, depth);
        }
    }
}

/// A child without anchors ends up inside the split that was laid out.
pub proof fn law_children_within(m: NodesView, loose: int, s: SplitIdx, k: int)
    requires
        m.linked(loose),
        m.orderly(),
        s.0 < m.splits.len(),
        0 <= k < m.split(s).children.len(),
        m.anchors_of(m.split(s).children[k]) == AnchorsView::free(),
    ensures
        within(m.laid_out(s).rect_of(m.split(s).children[k]), m.split(s).rect),
{
    let rank = choose|rank: Seq<nat>| m.ranked(rank);
    let si = s.0 as int;
    let children = m.split(s).children;
    let rects = m.child_rects(s);
    let n = children[k];
    assert(m.children_linked(si));
    tree_layout::lemma_linked_sound(m, loose);
    assert forall|j: int| 0 <= j < children.len() implies m.has(#[trigger] children[j]) by {
        assert(m.live(children[j]));
    }
    assert(m.splits[si].children.len() <= u16::MAX);
    assert(boxed(m.splits[si].rect));
    law_division(m, s);
    let placed = m.with_rects(children, rects);
    tree_layout::lemma_with_rects_moved(m, children, rects);
    tree_layout::lemma_moved_linked(m, placed, loose);
    tree_layout::lemma_moved_ranked(m, placed, rank);
    lemma_with_rects_at(m, children, rects, k);
    assert forall|j: int| 0 <= j < children.len() implies (
    #[trigger] children[j] matches NodeIdx::Split(c) ==> rank[c.0 as int] < rank[si]) by {
        assert(m.splits[si].children[j] == children[j]);
    }
    assert(m.has(n) && m.live(n));
    lemma_moved_parent(m, placed, n);
    assert(m.parent_of(n) == Some(s));
    lemma_relayout_each_keeps(
        placed,
        loose,
        rank,
        children,
        rank[si],
        (m.splits.len() - 1) as nat,
        n,
    );
    assert(within(m.child_rects(s)[k], m.split(s).rect));
}

} // verus!
