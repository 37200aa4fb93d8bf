//! What each child of a split gets: how much along the axis of division, and
//! where.
use vstd::prelude::*;
use crate::divide;
use crate::divide::Slot;
use crate::layout;
use crate::layout::{AnchorsView, Direction};
use crate::settled;
use crate::tame;
use crate::tree::{NodeIdx, NodesView, SplitIdx};

verus! {

// ---- how much

/// In a round no size shrinks, and none goes beyond its greatest size.
proof fn lemma_round_bounds(
    slots: Seq<Slot>,
    maxes: Seq<Option<int>>,
    takers: Seq<int>,
    per: int,
    at: int,
    space: int,
)
    requires
        0 <= at <= takers.len(),
        per > 0,
        tame::takers_in(takers, slots.len() as int),
    ensures
        ({
            let r = divide::offer_round(slots, maxes, takers, per, at, space);
            &&& r.slots.len() == slots.len()
            &&& forall|k: int|
                0 <= k < slots.len() ==> {
                    &&& (#[trigger] r.slots[k]).size >= slots[k].size
                    &&& maxes[k] matches Some(m) ==> r.slots[k].size <= m || r.slots[k].size
                        == slots[k].size
                    &&& !r.slots[k].seen ==> r.slots[k] == slots[k]
                }
            &&& r.full matches Some(j) ==> at <= j < takers.len() && divide::is_full(
                r.slots[takers[j]].size,
                maxes[takers[j]],
            )
        }),
    decreases takers.len() - at,
{
    if at < takers.len() {
        let i = takers[at];
        let size = slots[i].size + divide::granted(slots[i].size, maxes[i], per);
        let slots2 = slots.update(i, Slot { size, seen: true });
        let space2 = divide::monus(space, divide::granted(slots[i].size, maxes[i], per));
        if !divide::is_full(size, maxes[i]) {
            lemma_round_bounds(slots2, maxes, takers, per, at + 1, space2);
        }
    }
}

/// All children but the takers have reached their greatest sizes.
spec fn rest_full(slots: Seq<Slot>, maxes: Seq<Option<int>>, takers: Seq<int>) -> bool {
    forall|k: int|
        0 <= k < slots.len() ==> takers.contains(k) || divide::is_full(
            (#[trigger] slots[k]).size,
            maxes[k],
        )
}

proof fn lemma_share_bounds(
    slots: Seq<Slot>,
    maxes: Seq<Option<int>>,
    takers: Seq<int>,
    space: int,
)
    requires
        space >= 0,
        tame::sizes_nonneg(slots),
        tame::takers_in(takers, slots.len() as int),
        takers.len() <= slots.len(),
        rest_full(slots, maxes, takers),
    ensures
        ({
            let r = divide::share_out(slots, maxes, takers, space);
            let n = slots.len() as int;
            &&& r.len() == n
            &&& forall|k: int|
                0 <= k < n ==> {
                    &&& (#[trigger] r[k]).size >= slots[k].size
                    &&& maxes[k] matches Some(m) ==> r[k].size <= m || r[k].size == slots[k].size
                    &&& !r[k].seen ==> r[k] == slots[k]
                }
            &&& tame::total(r, n) <= tame::total(slots, n) + space
            &&& tame::total(r, n) > tame::total(slots, n) + space - n || tame::total(r, n)
                == tame::total(slots, n) + space || forall|k: int|
                0 <= k < n ==> divide::is_full((#[trigger] r[k]).size, maxes[k])
        }),
    decreases takers.len() + space,
{
    let n = slots.len() as int;
    if space == 0 {
    } else if takers.len() == 0 {
        assert forall|k: int| 0 <= k < n implies divide::is_full(
            (#[trigger] slots[k]).size,
            maxes[k],
        ) by {
            assert(!takers.contains(k));
        }
    } else if space / (takers.len() as int) == 0 {
        let t = takers.len() as int;
        assert(space < t) by (nonlinear_arith)
            requires
                space / t == 0,
                t > 0,
        ;
    } else {
        let per = space / (takers.len() as int);
        divide::lemma_share_positive(space, takers.len() as int);
        divide::lemma_round_uses_space(slots, maxes, takers, per, 0, space);
        assert(per * (takers.len() - 0) == per * (takers.len() as int));
        tame::lemma_round_total(slots, maxes, takers, per, 0, space);
        lemma_round_bounds(slots, maxes, takers, per, 0, space);
        let r = divide::offer_round(slots, maxes, takers, per, 0, space);
        let rest = match r.full {
            Some(j) => takers.remove(j),
            None => takers,
        };
        assert forall|k: int| 0 <= k < n implies rest.contains(k) || divide::is_full(
            (#[trigger] r.slots[k]).size,
            maxes[k],
        ) by {
            if takers.contains(k) && r.full is Some {
                let j = r.full->0;
                let i = choose|i: int| 0 <= i < takers.len() && takers[i] == k;
                if i < j {
                    assert(rest[i] == k);
                } else if i > j {
                    assert(rest[i - 1] == k);
                }
            }
            if !takers.contains(k) {
                assert(divide::is_full(slots[k].size, maxes[k]));
            }
        }
        assert(tame::takers_in(rest, n)) by {
            assert forall|k: int| 0 <= k < rest.len() implies 0 <= #[trigger] rest[k] < n by {
                if r.full is Some && k >= r.full->0 {
                    assert(rest[k] == takers[k + 1]);
                } else {
                    assert(rest[k] == takers[k]);
                }
            }
        }
        lemma_share_bounds(r.slots, maxes, rest, r.space);
    }
}

/// No child has less than its least size, and none more than its greatest
/// unless its least is more.
pub proof fn law_sizes_bounded(
    mins: Seq<Option<int>>,
    maxes: Seq<Option<int>>,
    extent: int,
    k: int,
)
    requires
        extent >= 0,
        0 <= k < mins.len(),
        forall|i: int| 0 <= i < mins.len() ==> (#[trigger] mins[i] matches Some(m) ==> m >= 0),
    ensures
        ({
            let slots = divide::divided(mins, maxes, extent);
            let least = match mins[k] {
                Some(m) => m,
                None => 0,
            };
            &&& slots.len() == mins.len()
            &&& slots[k].size >= least
            &&& maxes[k] matches Some(m) ==> slots[k].size <= m || slots[k].size == least
        }),
{
    lemma_first(mins, maxes, extent);
}

proof fn lemma_first(mins: Seq<Option<int>>, maxes: Seq<Option<int>>, extent: int)
    requires
        extent >= 0,
        forall|i: int| 0 <= i < mins.len() ==> (#[trigger] mins[i] matches Some(m) ==> m >= 0),
    ensures
        ({
            let first = divide::least_slots(mins);
            let slots = divide::divided(mins, maxes, extent);
            let space = divide::free_space(mins, extent);
            let n = mins.len() as int;
            &&& slots.len() == n
            &&& 0 <= space <= extent
            &&& forall|k: int|
                0 <= k < n ==> {
                    &&& (#[trigger] slots[k]).size >= first[k].size
                    &&& maxes[k] matches Some(m) ==> slots[k].size <= m || slots[k].size
                        == first[k].size
                    &&& !slots[k].seen ==> slots[k] == first[k]
                }
            &&& tame::total(slots, n) <= tame::total(first, n) + space
            &&& tame::total(slots, n) > tame::total(first, n) + space - n || tame::total(slots, n)
                == tame::total(first, n) + space || forall|k: int|
                0 <= k < n ==> divide::is_full((#[trigger] slots[k]).size, maxes[k])
        }),
{
    let first = divide::least_slots(mins);
    let takers = divide::ordinals(mins.len());
    lemma_space(mins, extent);
    assert forall|k: int| 0 <= k < first.len() implies (#[trigger] first[k]).size >= 0 by {
        assert(mins[k] matches Some(m) ==> m >= 0);
    }
    assert forall|k: int| 0 <= k < first.len() implies takers.contains(k) || divide::is_full(
        (#[trigger] first[k]).size,
        maxes[k],
    ) by {
        assert(takers[k] == k);
    }
    lemma_share_bounds(first, maxes, takers, divide::free_space(mins, extent));
}

proof fn lemma_space(mins: Seq<Option<int>>, extent: int)
    requires
        extent >= 0,
        forall|i: int| 0 <= i < mins.len() ==> (#[trigger] mins[i] matches Some(m) ==> m >= 0),
    ensures
        0 <= divide::free_space(mins, extent) <= extent,
    decreases mins.len(),
{
    if mins.len() > 0 {
        let rest = mins.drop_last();
        assert forall|i: int| 0 <= i < rest.len() implies (#[trigger] rest[i] matches Some(m) ==> m
            >= 0) by {
            assert(rest[i] == mins[i]);
        }
        lemma_space(rest, extent);
        assert(mins[mins.len() - 1] == mins.last());
    }
}

/// Nothing is held back: where no child asks for a least size, fewer cells are
/// left over than there are children, unless all are at their greatest sizes.
pub proof fn law_nothing_held_back(mins: Seq<Option<int>>, maxes: Seq<Option<int>>, extent: int)
    requires
        tame::no_least(mins),
        mins.len() > 0,
        maxes.len() == mins.len(),
        extent >= 0,
    ensures
        ({
            let slots = divide::divided(mins, maxes, extent);
            let n = mins.len() as int;
            &&& tame::total(slots, n) <= extent
            &&& extent - tame::total(slots, n) < n || forall|k: int|
                0 <= k < n ==> (#[trigger] slots[k]).size >= maxes[k]->0 && maxes[k] is Some
        }),
{
    let first = divide::least_slots(mins);
    assert forall|k: int| 0 <= k < first.len() implies (#[trigger] first[k]).size == 0 by {
        assert(mins[k] is None);
    }
    assert forall|i: int| 0 <= i < mins.len() implies (#[trigger] mins[i] matches Some(m) ==> m
        >= 0) by {
        assert(mins[i] is None);
    }
    tame::lemma_total_zero(first, first.len() as int);
    tame::lemma_free_space(mins, extent);
    lemma_first(mins, maxes, extent);
    let slots = divide::divided(mins, maxes, extent);
    let n = mins.len() as int;
    if extent - tame::total(slots, n) >= n {
        assert forall|k: int| 0 <= k < n implies (#[trigger] slots[k]).size >= maxes[k]->0
            && maxes[k] is Some by {
            assert(divide::is_full(slots[k].size, maxes[k]));
        }
    }
}

proof fn lemma_even_round(
    slots: Seq<Slot>,
    maxes: Seq<Option<int>>,
    n: nat,
    per: int,
    at: int,
    space: int,
)
    requires
        slots.len() == n,
        maxes.len() == n,
        tame::no_least(maxes),
        0 <= at <= n,
        per > 0,
        per * (n - at) <= space,
    ensures
        ({
            let r = divide::offer_round(slots, maxes, divide::ordinals(n), per, at, space);
            &&& r.full is None
            &&& r.space == space - per * (n - at)
            &&& r.slots.len() == n
            &&& forall|k: int|
                0 <= k < n ==> (#[trigger] r.slots[k]) == (if k >= at {
                    Slot { size: slots[k].size + per, seen: true }
                } else {
                    slots[k]
                })
        }),
    decreases n - at,
{
    assert(per * (n - at) == per + per * (n - at - 1)) by (nonlinear_arith);
    if at < n {
        assert(per * (n - at - 1) >= 0) by (nonlinear_arith)
            requires
                n - at >= 1,
                per > 0,
        ;
        assert(maxes[at] is None);
        let slots2 = slots.update(at, Slot { size: slots[at].size + per, seen: true });
        assert(divide::ordinals(n)[at] == at);
        lemma_even_round(slots2, maxes, n, per, at + 1, space - per);
    } else {
        assert(per * (n - at) == 0) by (nonlinear_arith)
            requires
                n == at,
        ;
    }
}

/// Children that ask for nothing get equal shares.
pub proof fn law_equal_shares(mins: Seq<Option<int>>, maxes: Seq<Option<int>>, extent: int, k: int)
    requires
        tame::no_least(mins),
        tame::no_least(maxes),
        maxes.len() == mins.len(),
        extent >= 0,
        0 <= k < mins.len(),
    ensures
        divide::divided(mins, maxes, extent)[k].size == extent / (mins.len() as int),
        divide::divided(mins, maxes, extent)[k].seen == (extent >= mins.len()),
{
    let n = mins.len();
    let first = divide::least_slots(mins);
    let takers = divide::ordinals(n);
    let per = extent / (n as int);
    tame::lemma_free_space(mins, extent);
    divide::lemma_share_positive(extent, n as int);
    assert(mins[k] is None);
    assert(first[k].size == 0);
    assert(per == 0 <==> extent < n) by (nonlinear_arith)
        requires
            per == extent / (n as int),
            n > 0,
            extent >= 0,
    ;
    if per > 0 {
        assert(per * (n - 0) == per * n);
        lemma_even_round(first, maxes, n, per, 0, extent);
        let r = divide::offer_round(first, maxes, takers, per, 0, extent);
        let left = extent - per * n;
        assert(0 <= left < n) by (nonlinear_arith)
            requires
                per == extent / (n as int),
                n > 0,
                extent >= 0,
                left == extent - per * n,
        ;
        assert(left / (n as int) == 0) by (nonlinear_arith)
            requires
                0 <= left < n,
        ;
        assert(divide::share_out(r.slots, maxes, takers, r.space) == r.slots);
    }
}

// ---- where

/// A child without anchors takes the whole of the split across the axis of
/// division, if it takes anything; the first one starts where the split starts,
/// and each starts where the one before it ends.
pub proof fn law_in_line(m: NodesView, loose: int, s: SplitIdx, k: int)
    requires
        m.linked(loose),
        s.0 < m.splits.len(),
        m.layout_fits(s),
        0 <= k < m.split(s).children.len(),
        m.anchors_of(m.split(s).children[k]) == AnchorsView::free(),
        m.constraints_of(m.split(s).children[k]).min_width is None,
    ensures
        ({
            let outer = m.splits[s.0 as int].rect;
            let children = m.splits[s.0 as int].children;
            let g = m.laid_out(s);
            let a = g.rect_of(children[k]);
            &&& match m.splits[s.0 as int].direction {
                Direction::Vertical => {
                    &&& a.y == outer.y
                    &&& a.w > 0 ==> a.h == outer.h
                    &&& k == 0 ==> a.x == outer.x
                },
                Direction::Horizontal => {
                    &&& a.x == outer.x
                    &&& a.h > 0 ==> a.w == outer.w
                    &&& k == 0 ==> a.y == outer.y
                },
            }
            &&& k + 1 < children.len() && m.anchors_of(children[k + 1]) == AnchorsView::free() ==> {
                let b = g.rect_of(children[k + 1]);
                match m.splits[s.0 as int].direction {
                    Direction::Vertical => b.x == a.x + a.w,
                    Direction::Horizontal => b.y == a.y + a.h,
                }
            }
        }),
{
    let v = m.split(s);
    let mins = m.least_sizes(s);
    let maxes = m.greatest_sizes(s);
    let across = m.anchors_across(s);
    let along = m.anchors_along(s);
    let extent = divide::main_extent(v.direction, v.rect);
    let slots = divide::divided(mins, maxes, extent);
    lemma_child_rects(m, loose, s);
    settled::lemma_sizes_nonneg(m, s);
    lemma_seen(m, s, k);
    assert(divide::placed_fits(v.direction, v.rect, slots, across, along, k));
    tame::lemma_line_up(slots, along, k);
    tame::lemma_line_up(slots, along, k + 1);
    assert(slots[k].size >= 0);
    assert(along[k] is None);
    assert(across[k] is None);
    assert(m.child_rects(s)[k] == divide::placed(v.direction, v.rect, slots, across, along, k));
    assert(divide::line_up(slots, along, k + 1) == divide::line_up(slots, along, k)
        + slots[k].size);
    if k + 1 < v.children.len() {
        assert(divide::placed_fits(v.direction, v.rect, slots, across, along, k + 1));
        assert(m.child_rects(s)[k + 1] == divide::placed(
            v.direction,
            v.rect,
            slots,
            across,
            along,
            k + 1,
        ));
    }
}

pub proof fn lemma_child_rects(m: NodesView, loose: int, s: SplitIdx)
    requires
        m.linked(loose),
        s.0 < m.splits.len(),
        m.layout_fits(s),
    ensures
        m.division_fits(s),
        m.child_rects(s).len() == m.split(s).children.len(),
        forall|k: int|
            0 <= k < m.split(s).children.len() ==> m.laid_out(s).rect_of(
                #[trigger] m.split(s).children[k],
            ) == m.child_rects(s)[k],
{
    let g = m.laid_out(s);
    settled::law_laid_out_once(m, loose, s);
    settled::law_only_below_moves(m, loose, s, NodeIdx::Split(s));
    settled::lemma_child_rects_same(m, g, loose, s);
    assert(g.in_place(s));
    assert forall|k: int| 0 <= k < m.split(s).children.len() implies m.laid_out(s).rect_of(
        #[trigger] m.split(s).children[k],
    ) == m.child_rects(s)[k] by {
        assert(g.split(s).children[k] == m.split(s).children[k]);
    }
}

/// A child without a least size that has a size was offered space.
pub proof fn lemma_seen(m: NodesView, s: SplitIdx, k: int)
    requires
        m.division_fits(s),
        0 <= k < m.split(s).children.len(),
        m.constraints_of(m.split(s).children[k]).min_width is None,
    ensures
        ({
            let v = m.split(s);
            let slots = divide::divided(
                m.least_sizes(s),
                m.greatest_sizes(s),
                divide::main_extent(v.direction, v.rect),
            );
            slots[k].size > 0 ==> slots[k].seen
        }),
{
    let v = m.split(s);
    let mins = m.least_sizes(s);
    assert forall|i: int| 0 <= i < mins.len() implies (#[trigger] mins[i] matches Some(x) ==> x
        >= 0) by {
        let n = v.children[i];
        assert(m.asks_fit(s, n));
        if let Some(d) = m.constraints_of(n).min_width {
            layout::lemma_extent_nonneg(d, v.rect.w as int);
        }
    }
    lemma_first(mins, m.greatest_sizes(s), divide::main_extent(v.direction, v.rect));
    assert(mins[k] is None);
}

/// Children that ask for nothing share a split in equal parts.
pub proof fn law_split_evenly(m: NodesView, loose: int, s: SplitIdx, k: int)
    requires
        m.linked(loose),
        s.0 < m.splits.len(),
        m.layout_fits(s),
        0 <= k < m.split(s).children.len(),
        forall|i: int|
            0 <= i < m.split(s).children.len() ==> {
                let c = m.constraints_of(#[trigger] m.split(s).children[i]);
                &&& c.min_width is None
                &&& c.max_width is None
                &&& c.max_height is None
            },
    ensures
        ({
            let outer = m.splits[s.0 as int].rect;
            let children = m.splits[s.0 as int].children;
            let a = m.laid_out(s).rect_of(children[k]);
            match m.splits[s.0 as int].direction {
                Direction::Vertical => a.w == outer.w as int / children.len() as int,
                Direction::Horizontal => a.h == outer.h as int / children.len() as int,
            }
        }),
{
    let v = m.split(s);
    let mins = m.least_sizes(s);
    let maxes = m.greatest_sizes(s);
    let extent = divide::main_extent(v.direction, v.rect);
    lemma_child_rects(m, loose, s);
    assert forall|i: int| 0 <= i < mins.len() implies (#[trigger] mins[i]) is None by {
        let _ = v.children[i];
    }
    assert forall|i: int| 0 <= i < maxes.len() implies (#[trigger] maxes[i]) is None by {
        let _ = v.children[i];
    }
    law_equal_shares(mins, maxes, extent, k);
    divide::lemma_share_positive(extent, v.children.len() as int);
}

} // verus!
