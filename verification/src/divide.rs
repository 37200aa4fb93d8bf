//! The division of a split's rectangle among its children.
use vstd::prelude::*;
use crate::layout;
use crate::layout::{Direction, Rect};

verus! {

/// The cells that a child has along the axis of division, and whether the
/// sharing out of the free space ever came to it.
pub struct Slot {
    pub size: int,
    pub seen: bool,
}

/// `a - b`, or zero where that would be negative.
pub open spec fn monus(a: int, b: int) -> int {
    if a >= b {
        a - b
    } else {
        0
    }
}

/// What a child takes of the `per` cells offered to it: no more than keeps it
/// at its greatest size.
pub open spec fn granted(size: int, max: Option<int>, per: int) -> int {
    match max {
        Some(m) => if per <= monus(m, size) {
            per
        } else {
            monus(m, size)
        },
        None => per,
    }
}

/// A child that has reached its greatest size.
pub open spec fn is_full(size: int, max: Option<int>) -> bool {
    max matches Some(m) && size >= m
}

/// The outcome of one round of offers.
pub struct Round {
    pub slots: Seq<Slot>,
    pub space: int,
    /// The place in the list of takers of the child that became full.
    pub full: Option<int>,
}

/// One round: each taker from `at` on is offered `per` cells, until one is full.
pub open spec fn offer_round(
    slots: Seq<Slot>,
    maxes: Seq<Option<int>>,
    takers: Seq<int>,
    per: int,
    at: int,
    space: int,
) -> Round
    decreases takers.len() - at,
{
    if at < 0 || at >= takers.len() {
        Round { slots, space, full: None }
    } else {
        let i = takers[at];
        let add = granted(slots[i].size, maxes[i], per);
        let size = slots[i].size + add;
        let slots2 = slots.update(i, Slot { size, seen: true });
        let space2 = monus(space, add);
        if is_full(size, maxes[i]) {
            Round { slots: slots2, space: space2, full: Some(at) }
        } else {
            offer_round(slots2, maxes, takers, per, at + 1, space2)
        }
    }
}

pub proof fn lemma_round_uses_space(
    slots: Seq<Slot>,
    maxes: Seq<Option<int>>,
    takers: Seq<int>,
    per: int,
    at: int,
    space: int,
)
    requires
        0 <= at,
        per > 0,
        space >= 0,
    ensures
        ({
            let r = offer_round(slots, maxes, takers, per, at, space);
            &&& 0 <= r.space <= space
            &&& r.full matches Some(j) ==> at <= j < takers.len()
            &&& r.full is None && at < takers.len() && space > 0 ==> r.space < space
        }),
    decreases takers.len() - at,
{
    if at < takers.len() {
        let i = takers[at];
        let add = granted(slots[i].size, maxes[i], per);
        let size = slots[i].size + add;
        if !is_full(size, maxes[i]) {
            lemma_round_uses_space(
                slots.update(i, Slot { size, seen: true }),
                maxes,
                takers,
                per,
                at + 1,
                monus(space, add),
            );
        }
    }
}

/// Round after round, the free space is offered in equal parts to the takers
/// that are not yet full, until none is left that divides among them.
pub open spec fn share_out(
    slots: Seq<Slot>,
    maxes: Seq<Option<int>>,
    takers: Seq<int>,
    space: int,
) -> Seq<Slot>
    decreases takers.len() + space,
    when space >= 0
{
    if space == 0 || takers.len() == 0 || space / (takers.len() as int) == 0 {
        slots
    } else {
        let r = offer_round(slots, maxes, takers, space / (takers.len() as int), 0, space);
        proof {
            lemma_share_positive(space, takers.len() as int);
            lemma_round_uses_space(
                slots,
                maxes,
                takers,
                space / (takers.len() as int),
                0,
                space,
            );
        }
        match r.full {
            Some(j) => share_out(r.slots, maxes, takers.remove(j), r.space),
            None => share_out(r.slots, maxes, takers, r.space),
        }
    }
}

pub proof fn lemma_share_positive(space: int, n: int)
    requires
        space >= 0,
        n > 0,
    ensures
        0 <= space / n <= space,
        (space / n) * n <= space,
{
    assert(0 <= space / n <= space && (space / n) * n <= space) by (nonlinear_arith)
        requires
            space >= 0,
            n > 0,
    ;
}

/// The least sizes, before any free space is shared out.
pub open spec fn least_slots(mins: Seq<Option<int>>) -> Seq<Slot> {
    Seq::new(
        mins.len(),
        |i: int|
            Slot {
                size: match mins[i] {
                    Some(m) => m,
                    None => 0,
                },
                seen: false,
            },
    )
}

/// What the least sizes leave of `total`.
pub open spec fn free_space(mins: Seq<Option<int>>, total: int) -> int
    decreases mins.len(),
{
    if mins.len() == 0 {
        total
    } else {
        match mins.last() {
            Some(m) => monus(free_space(mins.drop_last(), total), m),
            None => free_space(mins.drop_last(), total),
        }
    }
}

/// `0, 1, .., n - 1`.
pub open spec fn ordinals(n: nat) -> Seq<int> {
    Seq::new(n, |i: int| i)
}

/// The sizes of the children along the axis of division.
pub open spec fn divided(mins: Seq<Option<int>>, maxes: Seq<Option<int>>, total: int) -> Seq<Slot> {
    share_out(least_slots(mins), maxes, ordinals(mins.len()), free_space(mins, total))
}

/// The room that the first `n` children take in line: an anchored child stands
/// outside the line.
pub open spec fn line_up(slots: Seq<Slot>, anchored: Seq<Option<int>>, n: int) -> int
    decreases n,
{
    if n <= 0 {
        0
    } else {
        line_up(slots, anchored, n - 1) + if anchored[n - 1] is None {
            slots[n - 1].size
        } else {
            0
        }
    }
}

/// The start of child `i` on the axis of division, relative to the parent.
pub open spec fn main_start(slots: Seq<Slot>, along: Seq<Option<int>>, i: int) -> int {
    match along[i] {
        Some(a) => a,
        None => line_up(slots, along, i),
    }
}

/// The start of child `i` across the axis of division, relative to the parent.
pub open spec fn cross_start(across: Seq<Option<int>>, i: int) -> int {
    match across[i] {
        Some(a) => a,
        None => 0,
    }
}

/// The rectangle of child `i`. Children of a vertical split stand side by
/// side, those of a horizontal split one below the other. A child that was
/// never offered space has no extent across the axis.
pub open spec fn placed(
    direction: Direction,
    parent: Rect,
    slots: Seq<Slot>,
    across: Seq<Option<int>>,
    along: Seq<Option<int>>,
    i: int,
) -> Rect {
    let size = slots[i].size;
    let main = main_start(slots, along, i);
    let cross = cross_start(across, i);
    match direction {
        Direction::Horizontal => Rect {
            x: (parent.x + cross) as u16,
            y: (parent.y + main) as u16,
            h: size as u16,
            w: if slots[i].seen { parent.w } else { 0 },
        },
        Direction::Vertical => Rect {
            x: (parent.x + main) as u16,
            y: (parent.y + cross) as u16,
            h: if slots[i].seen { parent.h } else { 0 },
            w: size as u16,
        },
    }
}

/// The start and the end of one child stay within `u16`.
pub open spec fn placed_fits(
    direction: Direction,
    parent: Rect,
    slots: Seq<Slot>,
    across: Seq<Option<int>>,
    along: Seq<Option<int>>,
    i: int,
) -> bool {
    &&& line_up(slots, along, i + 1) <= u16::MAX
    &&& main_start(slots, along, i) + (match direction {
        Direction::Horizontal => parent.y,
        Direction::Vertical => parent.x,
    }) <= u16::MAX
    &&& cross_start(across, i) + (match direction {
        Direction::Horizontal => parent.x,
        Direction::Vertical => parent.y,
    }) <= u16::MAX
}

/// The positions and the room in line are all `u16`.
pub open spec fn placement_fits(
    direction: Direction,
    parent: Rect,
    slots: Seq<Slot>,
    across: Seq<Option<int>>,
    along: Seq<Option<int>>,
) -> bool {
    forall|i: int|
        0 <= i < slots.len() ==> #[trigger] placed_fits(
            direction,
            parent,
            slots,
            across,
            along,
            i,
        )
}

/// The extent of a rectangle along the axis of division.
pub open spec fn main_extent(direction: Direction, parent: Rect) -> int {
    match direction {
        Direction::Vertical => parent.w as int,
        Direction::Horizontal => parent.h as int,
    }
}

/// The values of a list of optional sizes.
pub open spec fn option_ints(s: Seq<Option<u16>>) -> Seq<Option<int>> {
    s.map_values(|o: Option<u16>| layout::option_int(o))
}

/// The rectangles of all children, from the sizes and anchors they ask for.
pub open spec fn divided_rects(
    direction: Direction,
    parent: Rect,
    mins: Seq<Option<int>>,
    maxes: Seq<Option<int>>,
    across: Seq<Option<int>>,
    along: Seq<Option<int>>,
) -> Seq<Rect> {
    let slots = divided(mins, maxes, main_extent(direction, parent));
    Seq::new(mins.len(), |i: int| placed(direction, parent, slots, across, along, i))
}

#[derive(Clone, Copy)]
pub struct Share {
    pub size: u16,
    pub seen: bool,
}

pub open spec fn slot_of(s: Share) -> Slot {
    Slot { size: s.size as int, seen: s.seen }
}

pub open spec fn slots_of(s: Seq<Share>) -> Seq<Slot> {
    s.map_values(|x: Share| slot_of(x))
}

pub open spec fn index_ints(s: Seq<usize>) -> Seq<int> {
    s.map_values(|x: usize| x as int)
}

/// The sum of the sizes and the space stays the same in a round, and no single
/// size outgrows what it could take.
fn offer(
    shares: &mut Vec<Share>,
    maxes: &Vec<Option<u16>>,
    takers: &Vec<usize>,
    per: u16,
    space: u16,
) -> (res: (u16, Option<usize>))
    requires
        old(shares)@.len() == maxes@.len(),
        forall|k: int| 0 <= k < takers@.len() ==> #[trigger] takers@[k] < maxes@.len(),
        per > 0,
        per * takers@.len() <= space,
        forall|k: int| 0 <= k < maxes@.len() ==> #[trigger] old(shares)@[k].size + space <= u16::MAX,
    ensures
        ({
            let r = offer_round(
                slots_of(old(shares)@),
                option_ints(maxes@),
                index_ints(takers@),
                per as int,
                0,
                space as int,
            );
            &&& slots_of(final(shares)@) == r.slots
            &&& res.0 == r.space
            &&& (res.1 is Some <==> r.full is Some)
            &&& (res.1 matches Some(j) ==> r.full == Some(j as int))
        }),
        final(shares)@.len() == maxes@.len(),
        forall|k: int|
            0 <= k < maxes@.len() ==> #[trigger] final(shares)@[k].size + res.0 <= u16::MAX,
{
    let mut left: u16 = space;
    let mut at: usize = 0;
    let ghost whole = offer_round(
        slots_of(old(shares)@),
        option_ints(maxes@),
        index_ints(takers@),
        per as int,
        0,
        space as int,
    );
    while at < takers.len()
        invariant
            at <= takers@.len(),
            shares@.len() == maxes@.len(),
            forall|k: int| 0 <= k < takers@.len() ==> #[trigger] takers@[k] < maxes@.len(),
            per > 0,
            whole == offer_round(
                slots_of(old(shares)@),
                option_ints(maxes@),
                index_ints(takers@),
                per as int,
                0,
                space as int,
            ),
            per * (takers@.len() - at) <= left,
            forall|k: int| 0 <= k < maxes@.len() ==> #[trigger] shares@[k].size + left <= u16::MAX,
            whole == offer_round(
                slots_of(shares@),
                option_ints(maxes@),
                index_ints(takers@),
                per as int,
                at as int,
                left as int,
            ),
        decreases takers@.len() - at,
    {
        let i: usize = takers[at];
        let share: Share = shares[i];
        let max: Option<u16> = maxes[i];
        proof {
            assert(per * (takers@.len() - at) == per + per * (takers@.len() - at - 1))
                by (nonlinear_arith);
            assert(per * (takers@.len() - at - 1) >= 0) by (nonlinear_arith)
                requires
                    takers@.len() - at >= 1,
            ;
            assert(option_ints(maxes@)[i as int] == layout::option_int(max));
            assert(slots_of(shares@)[i as int] == slot_of(share));
            assert(index_ints(takers@)[at as int] == i);
        }
        let add: u16 = match max {
            Some(m) => if per <= m.saturating_sub(share.size) {
                per
            } else {
                m.saturating_sub(share.size)
            },
            None => per,
        };
        assert(add == granted(share.size as int, layout::option_int(max), per as int));
        let size: u16 = share.size + add;
        let ghost before = shares@;
        shares.set(i, Share { size, seen: true });
        left = left.saturating_sub(add);
        assert(slots_of(shares@) =~= slots_of(before).update(
            i as int,
            Slot { size: size as int, seen: true },
        ));
        let full: bool = match max {
            Some(m) => size >= m,
            None => false,
        };
        assert(full == is_full(size as int, layout::option_int(max)));
        if full {
            assert(whole == Round {
                slots: slots_of(shares@),
                space: left as int,
                full: Some(at as int),
            });
            return (left, Some(at));
        }
        at = at + 1;
    }
    (left, None)
}

fn share_space(shares: &mut Vec<Share>, maxes: &Vec<Option<u16>>, space: u16)
    requires
        old(shares)@.len() == maxes@.len(),
        maxes@.len() <= u16::MAX,
        forall|k: int| 0 <= k < maxes@.len() ==> #[trigger] old(shares)@[k].size + space <= u16::MAX,
    ensures
        slots_of(final(shares)@) == share_out(
            slots_of(old(shares)@),
            option_ints(maxes@),
            ordinals(maxes@.len()),
            space as int,
        ),
        final(shares)@.len() == maxes@.len(),
{
    let mut takers: Vec<usize> = Vec::new();
    let n: usize = shares.len();
    let mut k: usize = 0;
    while k < n
        invariant
            k <= n,
            takers@.len() == k,
            forall|j: int| 0 <= j < k ==> #[trigger] takers@[j] == j,
        decreases n - k,
    {
        takers.push(k);
        k = k + 1;
    }
    assert(index_ints(takers@) =~= ordinals(maxes@.len()));
    let mut space: u16 = space;
    let ghost whole = share_out(
        slots_of(shares@),
        option_ints(maxes@),
        index_ints(takers@),
        space as int,
    );
    let mut going: bool = true;
    while going && space > 0 && takers.len() > 0
        invariant
            shares@.len() == maxes@.len(),
            maxes@.len() <= u16::MAX,
            takers@.len() <= maxes@.len(),
            forall|j: int| 0 <= j < takers@.len() ==> #[trigger] takers@[j] < maxes@.len(),
            forall|j: int| 0 <= j < maxes@.len() ==> #[trigger] shares@[j].size + space <= u16::MAX,
            going ==> whole == share_out(
                slots_of(shares@),
                option_ints(maxes@),
                index_ints(takers@),
                space as int,
            ),
            !going ==> whole == slots_of(shares@),
        decreases takers@.len() + space + if going { 1int } else { 0int },
    {
        let per: u16 = space / (takers.len() as u16);
        proof {
            lemma_share_positive(space as int, takers@.len() as int);
            assert(per == space as int / takers@.len() as int);
            assert(index_ints(takers@).len() == takers@.len());
        }
        if per == 0 {
            going = false;
        } else {
            let ghost slots0 = slots_of(shares@);
            proof {
                lemma_round_uses_space(
                    slots0,
                    option_ints(maxes@),
                    index_ints(takers@),
                    per as int,
                    0,
                    space as int,
                );
            }
            let (left, full) = offer(shares, maxes, &takers, per, space);
            space = left;
            if let Some(j) = full {
                let ghost before = takers@;
                takers.remove(j);
                assert(index_ints(takers@) =~= index_ints(before).remove(j as int));
                assert forall|m: int| 0 <= m < takers@.len() implies #[trigger] takers@[m]
                    < maxes@.len() by {
                    if m < j {
                        assert(takers@[m] == before[m]);
                    } else {
                        assert(takers@[m] == before[m + 1]);
                    }
                }
            }
        }
    }
}

/// The rectangles of the children of a split: the least sizes first, then the
/// free space in equal parts, then each child in line or at its anchor.
pub fn divide(
    direction: Direction,
    parent: Rect,
    mins: &Vec<Option<u16>>,
    maxes: &Vec<Option<u16>>,
    across: &Vec<Option<u16>>,
    along: &Vec<Option<u16>>,
) -> (rects: Vec<Rect>)
    requires
        mins@.len() == maxes@.len() == across@.len() == along@.len(),
        mins@.len() <= u16::MAX,
        placement_fits(
            direction,
            parent,
            divided(option_ints(mins@), option_ints(maxes@), main_extent(direction, parent)),
            option_ints(across@),
            option_ints(along@),
        ),
    ensures
        rects@ == divided_rects(
            direction,
            parent,
            option_ints(mins@),
            option_ints(maxes@),
            option_ints(across@),
            option_ints(along@),
        ),
{
    let ghost imins = option_ints(mins@);
    let ghost imaxes = option_ints(maxes@);
    let ghost iacross = option_ints(across@);
    let ghost ialong = option_ints(along@);
    let n: usize = mins.len();
    let mut space: u16 = match direction {
        Direction::Vertical => parent.w,
        Direction::Horizontal => parent.h,
    };
    let ghost total = space as int;
    let mut shares: Vec<Share> = Vec::new();
    let mut k: usize = 0;
    assert(imins.take(0) =~= Seq::<Option<int>>::empty());
    while k < n
        invariant
            k <= n,
            n == mins@.len(),
            imins == option_ints(mins@),
            shares@.len() == k,
            space == free_space(imins.take(k as int), total),
            forall|j: int| 0 <= j < k ==> #[trigger] shares@[j].size + space <= u16::MAX,
            forall|j: int|
                0 <= j < k ==> slot_of(#[trigger] shares@[j]) == least_slots(imins)[j],
        decreases n - k,
    {
        let least: Option<u16> = mins[k];
        assert(imins[k as int] == layout::option_int(least));
        assert(imins.take(k + 1).drop_last() =~= imins.take(k as int));
        let size: u16 = match least {
            Some(m) => m,
            None => 0,
        };
        space = space.saturating_sub(size);
        shares.push(Share { size, seen: false });
        k = k + 1;
    }
    assert(imins.take(k as int) =~= imins);
    assert(slots_of(shares@) =~= least_slots(imins));
    share_space(&mut shares, maxes, space);
    let ghost slots = divided(imins, imaxes, total);
    assert(slots_of(shares@) == slots);
    let mut rects: Vec<Rect> = Vec::new();
    let mut run: u16 = 0;
    let mut i: usize = 0;
    while i < n
        invariant
            i <= n,
            n == mins@.len() == maxes@.len() == across@.len() == along@.len(),
            shares@.len() == n,
            iacross == option_ints(across@),
            ialong == option_ints(along@),
            slots == slots_of(shares@),
            placement_fits(direction, parent, slots, iacross, ialong),
            run == line_up(slots, ialong, i as int),
            rects@.len() == i,
            forall|j: int|
                0 <= j < i ==> #[trigger] rects@[j] == placed(
                    direction,
                    parent,
                    slots,
                    iacross,
                    ialong,
                    j,
                ),
        decreases n - i,
    {
        let share: Share = shares[i];
        let anchor_along: Option<u16> = along[i];
        let anchor_across: Option<u16> = across[i];
        proof {
            assert(slots[i as int] == slot_of(share));
            assert(ialong[i as int] == layout::option_int(anchor_along));
            assert(iacross[i as int] == layout::option_int(anchor_across));
            assert(placed_fits(direction, parent, slots, iacross, ialong, i as int));
        }
        let main: u16 = match anchor_along {
            Some(a) => a,
            None => run,
        };
        let cross: u16 = match anchor_across {
            Some(a) => a,
            None => 0,
        };
        assert(main == main_start(slots, ialong, i as int));
        assert(cross == cross_start(iacross, i as int));
        let rect: Rect = match direction {
            Direction::Horizontal => Rect {
                x: cross + parent.x,
                y: main + parent.y,
                h: share.size,
                w: if share.seen {
                    parent.w
                } else {
                    0
                },
            },
            Direction::Vertical => Rect {
                x: main + parent.x,
                y: cross + parent.y,
                h: if share.seen {
                    parent.h
                } else {
                    0
                },
                w: share.size,
            },
        };
        rects.push(rect);
        if anchor_along.is_none() {
            run = run + share.size;
        }
        i = i + 1;
    }
    assert(rects@ =~= divided_rects(direction, parent, imins, imaxes, iacross, ialong));
    rects
}

} // verus!
