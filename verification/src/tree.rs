//! The tree of splits and leaves as a mathematical value: what a well-formed
//! tree is, and what each operation makes of it.
use vstd::prelude::*;
use crate::auto_complete::AutoCompleteView;
use crate::buffers::{BufferIdx, SCRATCH};
use crate::divide;
use crate::layout;
use crate::layout::{AnchorsView, ConstraintsView, Direction, Rect};
use crate::views;
use crate::views::{TextView, ViewIdx};

verus! {

#[derive(Clone, Copy, PartialEq, Eq, Structural)]
pub struct LeafIdx(pub usize);

#[derive(Clone, Copy, PartialEq, Eq, Structural)]
pub struct SplitIdx(pub usize);

#[derive(Clone, Copy, PartialEq, Eq, Structural)]
pub enum NodeIdx {
    Leaf(LeafIdx),
    Split(SplitIdx),
}

/// The root whose leaves show buffers.
pub const ROOT_TEXT_VIEW: usize = 0;

/// The root that holds the command line.
pub const ROOT_CMD_LINE: usize = 1;

/// The root of what is drawn over the rest.
pub const ROOT_OVERLAY: usize = 2;

/// The way the focus moves.
#[derive(Clone, Copy, PartialEq, Eq, Structural)]
pub enum Side {
    Right,
    Left,
    Up,
    Down,
}

/// What a leaf shows.
pub enum ComponentView {
    View(ViewIdx),
    CmdLine,
    AutoComplete(AutoCompleteView),
    BufferList,
}

pub struct SplitView {
    pub parent: Option<SplitIdx>,
    pub children: Seq<NodeIdx>,
    pub direction: Direction,
    pub focus: int,
    pub rect: Rect,
    pub constraints: ConstraintsView,
    pub anchors: AnchorsView,
}

pub struct LeafView {
    pub parent: SplitIdx,
    pub rect: Rect,
    pub constraints: ConstraintsView,
    pub anchors: AnchorsView,
    pub comp: ComponentView,
}

#[verifier::ext_equal]
pub struct NodesView {
    pub roots: Seq<SplitIdx>,
    pub splits: Seq<SplitView>,
    pub leaves: Seq<LeafView>,
    pub free_splits: Seq<usize>,
    pub free_leaves: Seq<usize>,
}

/// A list of nodes without one of them.
pub open spec fn without(nodes: Seq<NodeIdx>, node: NodeIdx) -> Seq<NodeIdx> {
    nodes.filter(|n: NodeIdx| n != node)
}

pub open spec fn no_rect() -> Rect {
    Rect { x: 0, y: 0, h: 0, w: 0 }
}

impl NodesView {
    pub open spec fn empty() -> NodesView {
        NodesView {
            roots: Seq::empty(),
            splits: Seq::empty(),
            leaves: Seq::empty(),
            free_splits: Seq::empty(),
            free_leaves: Seq::empty(),
        }
    }

    pub open spec fn split(self, s: SplitIdx) -> SplitView {
        self.splits[s.0 as int]
    }

    pub open spec fn leaf(self, l: LeafIdx) -> LeafView {
        self.leaves[l.0 as int]
    }

    pub open spec fn has(self, n: NodeIdx) -> bool {
        match n {
            NodeIdx::Leaf(l) => l.0 < self.leaves.len(),
            NodeIdx::Split(s) => s.0 < self.splits.len(),
        }
    }

    pub open spec fn is_free(self, n: NodeIdx) -> bool {
        match n {
            NodeIdx::Leaf(l) => self.free_leaves.contains(l.0),
            NodeIdx::Split(s) => self.free_splits.contains(s.0),
        }
    }

    /// A slot of the tree that is there and not free.
    pub open spec fn live(self, n: NodeIdx) -> bool {
        self.has(n) && !self.is_free(n)
    }

    pub open spec fn parent_of(self, n: NodeIdx) -> Option<SplitIdx> {
        match n {
            NodeIdx::Leaf(l) => Some(self.leaf(l).parent),
            NodeIdx::Split(s) => self.split(s).parent,
        }
    }

    pub open spec fn rect_of(self, n: NodeIdx) -> Rect {
        match n {
            NodeIdx::Leaf(l) => self.leaf(l).rect,
            NodeIdx::Split(s) => self.split(s).rect,
        }
    }

    pub open spec fn constraints_of(self, n: NodeIdx) -> ConstraintsView {
        match n {
            NodeIdx::Leaf(l) => self.leaf(l).constraints,
            NodeIdx::Split(s) => self.split(s).constraints,
        }
    }

    pub open spec fn anchors_of(self, n: NodeIdx) -> AnchorsView {
        match n {
            NodeIdx::Leaf(l) => self.leaf(l).anchors,
            NodeIdx::Split(s) => self.split(s).anchors,
        }
    }

    pub open spec fn with_split(self, s: SplitIdx, v: SplitView) -> NodesView {
        NodesView { splits: self.splits.update(s.0 as int, v), ..self }
    }

    pub open spec fn with_leaf(self, l: LeafIdx, v: LeafView) -> NodesView {
        NodesView { leaves: self.leaves.update(l.0 as int, v), ..self }
    }

    pub open spec fn with_rect(self, n: NodeIdx, rect: Rect) -> NodesView {
        match n {
            NodeIdx::Leaf(l) => self.with_leaf(l, LeafView { rect, ..self.leaf(l) }),
            NodeIdx::Split(s) => self.with_split(s, SplitView { rect, ..self.split(s) }),
        }
    }

    pub open spec fn with_children(self, s: SplitIdx, children: Seq<NodeIdx>) -> NodesView {
        self.with_split(s, SplitView { children, ..self.split(s) })
    }

    pub open spec fn with_focus(self, s: SplitIdx, focus: int) -> NodesView {
        self.with_split(s, SplitView { focus, ..self.split(s) })
    }

    pub open spec fn with_component(self, l: LeafIdx, comp: ComponentView) -> NodesView {
        self.with_leaf(l, LeafView { comp, ..self.leaf(l) })
    }

    // ---- well-formedness

    /// A numbering of the splits in which a split comes after the splits below
    /// it: there is no way from a split back to itself.
    pub open spec fn ranked(self, rank: Seq<nat>) -> bool {
        &&& rank.len() == self.splits.len()
        &&& forall|i: int| 0 <= i < rank.len() ==> #[trigger] rank[i] < rank.len()
        &&& forall|i: int, j: int|
            0 <= i < rank.len() && 0 <= j < rank.len() && i != j ==> #[trigger] rank[i]
                != #[trigger] rank[j]
        &&& forall|i: int, k: int|
            0 <= i < self.splits.len() && 0 <= k < self.splits[i].children.len() ==> (
            #[trigger] self.splits[i].children[k] matches NodeIdx::Split(c) ==> rank[c.0 as int]
                < rank[i])
    }

    /// The children of split `i` are nodes of the tree that name it as their
    /// parent, each once, and its focus is among them.
    pub open spec fn children_linked(self, i: int) -> bool {
        let s = self.splits[i];
        &&& forall|k: int|
            0 <= k < s.children.len() ==> {
                &&& self.live(#[trigger] s.children[k])
                &&& self.parent_of(s.children[k]) == Some(SplitIdx(i as usize))
            }
        &&& s.children.no_duplicates()
        &&& 0 <= s.focus
        &&& s.focus == 0 || s.focus < s.children.len()
    }

    /// Split `i`, unless it is a root, stands among the children of its parent.
    pub open spec fn parent_linked(self, i: int) -> bool {
        self.splits[i].parent matches Some(p) ==> {
            &&& p.0 < self.splits.len()
            &&& self.split(p).children.contains(NodeIdx::Split(SplitIdx(i as usize)))
        }
    }

    /// A tree of linked nodes. Split number `loose`, if there is one, may
    /// stand outside its parent.
    pub open spec fn linked(self, loose: int) -> bool {
        &&& self.splits.len() <= usize::MAX
        &&& self.leaves.len() <= usize::MAX
        &&& forall|k: int|
            0 <= k < self.roots.len() ==> {
                &&& self.live(NodeIdx::Split(#[trigger] self.roots[k]))
                &&& self.split(self.roots[k]).parent is None
            }
        &&& forall|i: int| 0 <= i < self.splits.len() ==> #[trigger] self.children_linked(i)
        &&& forall|i: int|
            0 <= i < self.splits.len() && i != loose && !self.free_splits.contains(i as usize)
                ==> #[trigger] self.parent_linked(i)
        &&& forall|i: int|
            0 <= i < self.leaves.len() ==> (#[trigger] self.leaves[i]).parent.0 < self.splits.len()
        &&& self.free_splits.no_duplicates()
        &&& self.free_leaves.no_duplicates()
        &&& forall|k: int|
            0 <= k < self.free_splits.len() ==> {
                &&& #[trigger] self.free_splits[k] < self.splits.len()
                &&& self.splits[self.free_splits[k] as int].children.len() == 0
            }
        &&& forall|k: int|
            0 <= k < self.free_leaves.len() ==> #[trigger] self.free_leaves[k] < self.leaves.len()
        &&& exists|rank: Seq<nat>| self.ranked(rank)
    }

    /// Every split below another one has children.
    pub open spec fn filled(self) -> bool {
        forall|i: int, k: int|
            0 <= i < self.splits.len() && 0 <= k < self.splits[i].children.len() ==> (
            #[trigger] self.splits[i].children[k] matches NodeIdx::Split(c) ==> self.split(
                c,
            ).children.len() > 0)
    }

    pub open spec fn wf(self) -> bool {
        self.linked(-1) && self.filled()
    }

    // ---- layout

    pub open spec fn least_sizes(self, s: SplitIdx) -> Seq<Option<int>> {
        let v = self.split(s);
        v.children.map_values(
            |n: NodeIdx| layout::bounded_extent(self.constraints_of(n).min_width, v.rect.w as int),
        )
    }

    pub open spec fn greatest_sizes(self, s: SplitIdx) -> Seq<Option<int>> {
        let v = self.split(s);
        v.children.map_values(
            |n: NodeIdx|
                match v.direction {
                    Direction::Vertical => layout::bounded_extent(
                        self.constraints_of(n).max_width,
                        v.rect.w as int,
                    ),
                    Direction::Horizontal => layout::bounded_extent(
                        self.constraints_of(n).max_height,
                        v.rect.h as int,
                    ),
                },
        )
    }

    /// Where the children ask to stand across the axis of division.
    pub open spec fn anchors_across(self, s: SplitIdx) -> Seq<Option<int>> {
        let v = self.split(s);
        v.children.map_values(
            |n: NodeIdx|
                match v.direction {
                    Direction::Vertical => layout::option_offset(
                        self.anchors_of(n).y,
                        v.rect.h as int,
                    ),
                    Direction::Horizontal => layout::option_offset(
                        self.anchors_of(n).x,
                        v.rect.w as int,
                    ),
                },
        )
    }

    /// Where the children ask to stand on the axis of division.
    pub open spec fn anchors_along(self, s: SplitIdx) -> Seq<Option<int>> {
        let v = self.split(s);
        v.children.map_values(
            |n: NodeIdx|
                match v.direction {
                    Direction::Vertical => layout::option_offset(
                        self.anchors_of(n).x,
                        v.rect.w as int,
                    ),
                    Direction::Horizontal => layout::option_offset(
                        self.anchors_of(n).y,
                        v.rect.h as int,
                    ),
                },
        )
    }

    /// What node `n` asks of split `s` can be summed up.
    pub open spec fn asks_fit(self, s: SplitIdx, n: NodeIdx) -> bool {
        let v = self.split(s);
        let c = self.constraints_of(n);
        &&& layout::option_extent_fits(c.min_width, v.rect.w as int)
        &&& match v.direction {
            Direction::Vertical => layout::option_extent_fits(c.max_width, v.rect.w as int),
            Direction::Horizontal => layout::option_extent_fits(c.max_height, v.rect.h as int),
        }
        &&& layout::option_offset_fits(self.anchors_of(n).x, v.rect.w as int)
        &&& layout::option_offset_fits(self.anchors_of(n).y, v.rect.h as int)
    }

    /// The rectangles that split `s` gives to its children.
    pub open spec fn child_rects(self, s: SplitIdx) -> Seq<Rect> {
        divide::divided_rects(
            self.split(s).direction,
            self.split(s).rect,
            self.least_sizes(s),
            self.greatest_sizes(s),
            self.anchors_across(s),
            self.anchors_along(s),
        )
    }

    /// The division of split `s` among its children stays within `u16`.
    pub open spec fn division_fits(self, s: SplitIdx) -> bool {
        let v = self.split(s);
        &&& v.children.len() <= u16::MAX
        &&& forall|k: int| 0 <= k < v.children.len() ==> self.asks_fit(s, #[trigger] v.children[k])
        &&& divide::placement_fits(
            v.direction,
            v.rect,
            divide::divided(
                self.least_sizes(s),
                self.greatest_sizes(s),
                divide::main_extent(v.direction, v.rect),
            ),
            self.anchors_across(s),
            self.anchors_along(s),
        )
    }

    /// Each node of the list gets the rectangle at its place.
    pub open spec fn with_rects(self, nodes: Seq<NodeIdx>, rects: Seq<Rect>) -> NodesView
        decreases nodes.len(),
    {
        if nodes.len() == 0 {
            self
        } else {
            self.with_rects(nodes.drop_last(), rects).with_rect(
                nodes.last(),
                rects[nodes.len() - 1],
            )
        }
    }

    /// The children of `s` get their rectangles, then the children of those
    /// that are splits, down to the given depth.
    pub open spec fn relayout(self, s: SplitIdx, depth: nat) -> NodesView
        decreases depth, 0nat,
    {
        if depth == 0 {
            self
        } else {
            let children = self.split(s).children;
            self.with_rects(children, self.child_rects(s)).relayout_each(
                children,
                (depth - 1) as nat,
            )
        }
    }

    /// Each split of the list is laid out in turn.
    pub open spec fn relayout_each(self, nodes: Seq<NodeIdx>, depth: nat) -> NodesView
        decreases depth, nodes.len(),
    {
        if nodes.len() == 0 {
            self
        } else {
            let m = self.relayout_each(nodes.drop_last(), depth);
            match nodes.last() {
                NodeIdx::Split(c) => m.relayout(c, depth),
                NodeIdx::Leaf(_) => m,
            }
        }
    }

    /// Every division on the way down stays within `u16`.
    pub open spec fn relayout_fits(self, s: SplitIdx, depth: nat) -> bool
        decreases depth, 0nat,
    {
        depth == 0 || {
            let children = self.split(s).children;
            &&& self.division_fits(s)
            &&& self.with_rects(children, self.child_rects(s)).relayout_each_fits(
                children,
                (depth - 1) as nat,
            )
        }
    }

    pub open spec fn relayout_each_fits(self, nodes: Seq<NodeIdx>, depth: nat) -> bool
        decreases depth, nodes.len(),
    {
        nodes.len() == 0 || {
            &&& self.relayout_each_fits(nodes.drop_last(), depth)
            &&& nodes.last() matches NodeIdx::Split(c) ==> self.relayout_each(
                nodes.drop_last(),
                depth,
            ).relayout_fits(c, depth)
        }
    }

    /// The tree below `s` laid out afresh. No path in the tree is longer than
    /// the number of splits.
    pub open spec fn laid_out(self, s: SplitIdx) -> NodesView {
        self.relayout(s, self.splits.len())
    }

    /// The tree below `s` can be laid out within `u16`.
    pub open spec fn layout_fits(self, s: SplitIdx) -> bool {
        self.relayout_fits(s, self.splits.len())
    }

    /// The same tree but for the rectangles of its nodes.
    pub open spec fn moved(self, other: NodesView) -> bool {
        &&& other.roots == self.roots
        &&& other.free_splits == self.free_splits
        &&& other.free_leaves == self.free_leaves
        &&& other.splits.len() == self.splits.len()
        &&& other.leaves.len() == self.leaves.len()
        &&& forall|i: int|
            0 <= i < self.splits.len() ==> (#[trigger] other.splits[i]) == (SplitView {
                rect: other.splits[i].rect,
                ..self.splits[i]
            })
        &&& forall|i: int|
            0 <= i < self.leaves.len() ==> (#[trigger] other.leaves[i]) == (LeafView {
                rect: other.leaves[i].rect,
                ..self.leaves[i]
            })
    }

    // ---- growth

    /// A new split takes the slot that was freed last, or a new one.
    pub open spec fn new_split_idx(self) -> SplitIdx {
        if self.free_splits.len() == 0 {
            SplitIdx(self.splits.len() as usize)
        } else {
            SplitIdx(self.free_splits.last())
        }
    }

    pub open spec fn with_new_split(self, v: SplitView) -> NodesView {
        if self.free_splits.len() == 0 {
            NodesView { splits: self.splits.push(v), ..self }
        } else {
            NodesView {
                splits: self.splits.update(self.free_splits.last() as int, v),
                free_splits: self.free_splits.drop_last(),
                ..self
            }
        }
    }

    pub open spec fn new_leaf_idx(self) -> LeafIdx {
        if self.free_leaves.len() == 0 {
            LeafIdx(self.leaves.len() as usize)
        } else {
            LeafIdx(self.free_leaves.last())
        }
    }

    pub open spec fn with_new_leaf(self, v: LeafView) -> NodesView {
        if self.free_leaves.len() == 0 {
            NodesView { leaves: self.leaves.push(v), ..self }
        } else {
            NodesView {
                leaves: self.leaves.update(self.free_leaves.last() as int, v),
                free_leaves: self.free_leaves.drop_last(),
                ..self
            }
        }
    }

    pub open spec fn attached(self, s: SplitIdx, n: NodeIdx) -> NodesView {
        self.with_children(s, self.split(s).children.push(n))
    }

    /// The tree with a new last child of `parent`, not yet laid out.
    pub open spec fn planted(
        self,
        comp: ComponentView,
        parent: SplitIdx,
        constraints: ConstraintsView,
        anchors: AnchorsView,
    ) -> NodesView {
        self.with_new_leaf(
            LeafView { parent, rect: no_rect(), constraints, anchors, comp },
        ).attached(parent, NodeIdx::Leaf(self.new_leaf_idx()))
    }

    /// The tree with a new leaf below `parent`, laid out from there.
    pub open spec fn grown(
        self,
        comp: ComponentView,
        parent: SplitIdx,
        constraints: ConstraintsView,
        anchors: AnchorsView,
    ) -> NodesView {
        self.planted(comp, parent, constraints, anchors).laid_out(parent)
    }

    /// The tree with a new, empty last split below `parent`, not yet laid out.
    pub open spec fn branched(
        self,
        parent: SplitIdx,
        direction: Direction,
        constraints: ConstraintsView,
        anchors: AnchorsView,
    ) -> NodesView {
        self.with_new_split(
            SplitView {
                parent: Some(parent),
                children: Seq::empty(),
                direction,
                focus: 0,
                rect: no_rect(),
                constraints,
                anchors,
            },
        ).attached(parent, NodeIdx::Split(self.new_split_idx()))
    }

    /// The tree with a new split below `parent` that holds one new leaf.
    pub open spec fn forked(
        self,
        comp: ComponentView,
        parent: SplitIdx,
        direction: Direction,
        constraints: ConstraintsView,
        anchors: AnchorsView,
    ) -> NodesView {
        self.branched(parent, direction, constraints, anchors).grown(
            comp,
            self.new_split_idx(),
            ConstraintsView::free(),
            AnchorsView::free(),
        ).laid_out(parent)
    }

    /// The tree with a new leaf below `parent` can be laid out within `u16`.
    pub open spec fn grown_fits(
        self,
        comp: ComponentView,
        parent: SplitIdx,
        constraints: ConstraintsView,
        anchors: AnchorsView,
    ) -> bool {
        self.planted(comp, parent, constraints, anchors).layout_fits(parent)
    }

    /// The tree with a new split below `parent` can be laid out within `u16`.
    pub open spec fn forked_fits(
        self,
        comp: ComponentView,
        parent: SplitIdx,
        direction: Direction,
        constraints: ConstraintsView,
        anchors: AnchorsView,
    ) -> bool {
        let m = self.branched(parent, direction, constraints, anchors);
        let (c, a) = (ConstraintsView::free(), AnchorsView::free());
        &&& m.grown_fits(comp, self.new_split_idx(), c, a)
        &&& m.grown(comp, self.new_split_idx(), c, a).layout_fits(parent)
    }

    /// The size of a root on a screen: what its constraints allow.
    pub open spec fn root_rect(constraints: ConstraintsView, width: u16, height: u16) -> Rect {
        Rect {
            x: 0,
            y: 0,
            h: (match layout::bounded_extent(constraints.max_height, height as int) {
                Some(h) => h,
                None => height as int,
            }) as u16,
            w: (match layout::bounded_extent(constraints.max_width, width as int) {
                Some(w) => w,
                None => width as int,
            }) as u16,
        }
    }

    /// The tree with a new root that has no children.
    pub open spec fn rooted(
        self,
        constraints: ConstraintsView,
        anchors: AnchorsView,
        width: u16,
        height: u16,
        direction: Direction,
    ) -> NodesView {
        let m = self.with_new_split(
            SplitView {
                parent: None,
                children: Seq::empty(),
                direction,
                focus: 0,
                rect: Self::root_rect(constraints, width, height),
                constraints,
                anchors,
            },
        );
        NodesView { roots: m.roots.push(self.new_split_idx()), ..m }
    }

    // ---- focus

    /// The leaf that the focus leads to from `n`, in at most `depth` steps.
    pub open spec fn follow(self, n: NodeIdx, depth: nat) -> Option<LeafIdx>
        decreases depth,
    {
        match n {
            NodeIdx::Leaf(l) => Some(l),
            NodeIdx::Split(s) => {
                let v = self.split(s);
                if depth == 0 || !(0 <= v.focus < v.children.len()) {
                    None
                } else {
                    self.follow(v.children[v.focus], (depth - 1) as nat)
                }
            },
        }
    }

    /// The leaf that the focus leads to from `n`.
    pub open spec fn focused(self, n: NodeIdx) -> Option<LeafIdx> {
        self.follow(n, self.splits.len())
    }

    /// Child `n` lies wholly on the given side of the rectangle `from`.
    pub open spec fn lies(self, n: NodeIdx, side: Side, from: Rect) -> bool {
        let r = self.rect_of(n);
        match side {
            Side::Right => r.x >= from.x + from.w,
            Side::Left => r.x + r.w <= from.x,
            Side::Up => r.y + r.h <= from.y,
            Side::Down => r.y >= from.y + from.h,
        }
    }

    /// The place of the first node of a list on that side.
    pub open spec fn first_beyond(self, nodes: Seq<NodeIdx>, side: Side, from: Rect) -> Option<int>
        decreases nodes.len(),
    {
        if nodes.len() == 0 {
            None
        } else {
            match self.first_beyond(nodes.drop_last(), side, from) {
                Some(i) => Some(i),
                None => if self.lies(nodes.last(), side, from) {
                    Some(nodes.len() - 1)
                } else {
                    None
                },
            }
        }
    }

    /// The place of the last node of a list on that side.
    pub open spec fn last_beyond(self, nodes: Seq<NodeIdx>, side: Side, from: Rect) -> Option<int>
        decreases nodes.len(),
    {
        if nodes.len() == 0 {
            None
        } else if self.lies(nodes.last(), side, from) {
            Some(nodes.len() - 1)
        } else {
            self.last_beyond(nodes.drop_last(), side, from)
        }
    }

    /// The nearest node of a list on that side: the first to the right and
    /// down, the last to the left and up.
    pub open spec fn beyond(self, nodes: Seq<NodeIdx>, side: Side, from: Rect) -> Option<int> {
        match side {
            Side::Right => self.first_beyond(nodes, side, from),
            Side::Down => self.first_beyond(nodes, side, from),
            Side::Left => self.last_beyond(nodes, side, from),
            Side::Up => self.last_beyond(nodes, side, from),
        }
    }

    /// The first split, from `s` upwards, that has a child on that side, and
    /// the place of the nearest one.
    pub open spec fn seek(
        self,
        s: SplitIdx,
        side: Side,
        from: Rect,
        depth: nat,
    ) -> Option<(SplitIdx, int)>
        decreases depth,
    {
        if depth == 0 {
            None
        } else {
            match self.beyond(self.split(s).children, side, from) {
                Some(i) => Some((s, i)),
                None => match self.split(s).parent {
                    Some(p) => self.seek(p, side, from, (depth - 1) as nat),
                    None => None,
                },
            }
        }
    }

    /// The split, and the place in it, that the focus moves to from leaf `l`.
    pub open spec fn neighbour(self, l: LeafIdx, side: Side) -> Option<(SplitIdx, int)> {
        self.seek(self.leaf(l).parent, side, self.leaf(l).rect, self.splits.len())
    }

    /// The tree after the focus moved to that side of leaf `l`.
    pub open spec fn refocused(self, l: LeafIdx, side: Side) -> NodesView {
        match self.neighbour(l, side) {
            Some((s, i)) => self.with_focus(s, i),
            None => self,
        }
    }

    /// The leaf that has the focus after that.
    pub open spec fn refocused_leaf(self, l: LeafIdx, side: Side) -> LeafIdx {
        match self.neighbour(l, side) {
            Some((s, i)) => self.refocused(l, side).focused(self.split(s).children[i])->0,
            None => l,
        }
    }

    /// The far edge of a node, as it is looked at on the way, is within `u16`.
    pub open spec fn edge_fits(self, n: NodeIdx, side: Side) -> bool {
        let r = self.rect_of(n);
        match side {
            Side::Left => r.x + r.w <= u16::MAX,
            Side::Up => r.y + r.h <= u16::MAX,
            _ => true,
        }
    }

    pub open spec fn beyond_fits(self, nodes: Seq<NodeIdx>, side: Side, from: Rect) -> bool
        decreases nodes.len(),
    {
        nodes.len() == 0 || {
            &&& self.edge_fits(nodes.last(), side)
            &&& self.lies(nodes.last(), side, from) || self.beyond_fits(
                nodes.drop_last(),
                side,
                from,
            )
        }
    }

    pub open spec fn seek_fits(self, s: SplitIdx, side: Side, from: Rect, depth: nat) -> bool
        decreases depth,
    {
        depth == 0 || {
            let children = self.split(s).children;
            &&& side is Left || side is Up ==> self.beyond_fits(children, side, from)
            &&& self.beyond(children, side, from) is None ==> (self.split(s).parent matches Some(
                p,
            ) ==> self.seek_fits(p, side, from, (depth - 1) as nat))
        }
    }

    /// All edges that are looked at on the way from leaf `l` are within `u16`.
    pub open spec fn refocus_fits(self, l: LeafIdx, side: Side) -> bool {
        let from = self.leaf(l).rect;
        &&& match side {
            Side::Right => from.x + from.w <= u16::MAX,
            Side::Down => from.y + from.h <= u16::MAX,
            _ => true,
        }
        &&& self.seek_fits(self.leaf(l).parent, side, from, self.splits.len())
    }

    // ---- resizing

    /// Root `r` takes its size on a screen and is laid out.
    pub open spec fn with_root_size(self, r: SplitIdx, width: u16, height: u16) -> NodesView {
        let v = self.split(r);
        let size = Self::root_rect(v.constraints, width, height);
        self.with_rect(NodeIdx::Split(r), Rect { x: v.rect.x, y: v.rect.y, ..size })
    }

    pub open spec fn resized_each(self, roots: Seq<SplitIdx>, width: u16, height: u16) -> NodesView
        decreases roots.len(),
    {
        if roots.len() == 0 {
            self
        } else {
            self.resized_each(roots.drop_last(), width, height).with_root_size(
                roots.last(),
                width,
                height,
            ).laid_out(roots.last())
        }
    }

    /// The tree on a screen of another size: root after root is laid out.
    pub open spec fn resized(self, width: u16, height: u16) -> NodesView {
        self.resized_each(self.roots, width, height)
    }

    pub open spec fn resized_each_fits(
        self,
        roots: Seq<SplitIdx>,
        width: u16,
        height: u16,
    ) -> bool
        decreases roots.len(),
    {
        roots.len() == 0 || {
            let m = self.resized_each(roots.drop_last(), width, height);
            let c = m.split(roots.last()).constraints;
            &&& self.resized_each_fits(roots.drop_last(), width, height)
            &&& layout::option_extent_fits(c.max_width, width as int)
            &&& layout::option_extent_fits(c.max_height, height as int)
            &&& m.with_root_size(roots.last(), width, height).layout_fits(roots.last())
        }
    }

    pub open spec fn resized_fits(self, width: u16, height: u16) -> bool {
        self.resized_each_fits(self.roots, width, height)
    }

    // ---- shrinkage

    pub open spec fn freed(self, n: NodeIdx) -> NodesView {
        match n {
            NodeIdx::Leaf(l) => NodesView { free_leaves: self.free_leaves.push(l.0), ..self },
            NodeIdx::Split(s) => NodesView { free_splits: self.free_splits.push(s.0), ..self },
        }
    }

    /// The tree without the empty split `s`: its slot is free, and the focus of
    /// its parent `p` is one place further left.
    pub open spec fn cut(self, s: SplitIdx, p: SplitIdx) -> NodesView {
        let v = self.split(p);
        let at = v.children.index_of(NodeIdx::Split(s));
        self.with_split(
            p,
            SplitView {
                children: v.children.remove(at),
                focus: divide::monus(v.focus, 1),
                ..v
            },
        ).freed(NodeIdx::Split(s))
    }

    /// Empty splits are taken out, from `s` upwards, as long as there are any.
    pub open spec fn pruned(self, s: SplitIdx, depth: nat) -> NodesView
        decreases depth,
    {
        if depth == 0 || self.split(s).children.len() > 0 {
            self
        } else {
            match self.split(s).parent {
                Some(p) => self.cut(s, p).pruned(p, (depth - 1) as nat),
                None => self,
            }
        }
    }

    pub open spec fn text_root(self) -> SplitIdx {
        self.roots[ROOT_TEXT_VIEW as int]
    }

    /// Without the empty splits from `parent` upwards.
    pub open spec fn trimmed(self, parent: SplitIdx) -> NodesView {
        self.pruned(parent, self.splits.len())
    }

    /// The text root has lost its last child.
    pub open spec fn bare(self) -> bool {
        self.split(self.text_root()).children.len() == 0
    }

    /// A bare text root gets a leaf that shows view number `view`.
    pub open spec fn refilled(self, view: int) -> NodesView {
        if self.bare() {
            self.with_focus(self.text_root(), 0).grown(
                ComponentView::View(ViewIdx(view as usize)),
                self.text_root(),
                ConstraintsView::free(),
                AnchorsView::free(),
            )
        } else {
            self
        }
    }

    /// The tree after the empty splits from `parent` upwards are gone.
    pub open spec fn reflowed(self, views: Seq<TextView>, parent: SplitIdx) -> NodesView {
        self.trimmed(parent).refilled(views.len() as int)
    }

    /// The views after that: a bare text root brings a new one.
    pub open spec fn reflowed_views(self, views: Seq<TextView>, parent: SplitIdx) -> Seq<TextView> {
        if self.trimmed(parent).bare() {
            views.push(views::fresh_view(BufferIdx { idx: SCRATCH }))
        } else {
            views
        }
    }

    /// The reflow finds a text root, a place for its new leaf, and a leaf to
    /// focus on.
    pub open spec fn reflow_fits(self, views: Seq<TextView>, parent: SplitIdx) -> bool {
        let m = self.trimmed(parent);
        &&& self.roots.len() > ROOT_TEXT_VIEW
        &&& m.bare() ==> m.with_focus(m.text_root(), 0).grown_fits(
            ComponentView::View(ViewIdx(views.len() as usize)),
            m.text_root(),
            ConstraintsView::free(),
            AnchorsView::free(),
        )
        &&& self.reflowed(views, parent).focused(NodeIdx::Split(self.text_root())) is Some
    }

    /// `parent` without `child`, before anything is laid out: the focus goes
    /// one place to the left, from the first place to the last.
    pub open spec fn dropped(self, parent: SplitIdx, child: NodeIdx) -> NodesView {
        let v = self.split(parent);
        let rest = without(v.children, child);
        self.with_split(
            parent,
            SplitView {
                children: rest,
                focus: if rest.len() == 0 {
                    0
                } else {
                    (v.focus + rest.len() - 1) % (rest.len() as int)
                },
                ..v
            },
        )
    }

    /// The tree after `child` is gone and the rest is laid out.
    pub open spec fn removed(
        self,
        views: Seq<TextView>,
        parent: SplitIdx,
        child: NodeIdx,
    ) -> NodesView {
        let m = self.dropped(parent, child);
        let laid = if m.split(parent).children.len() == 0 {
            let r = m.reflowed(views, parent);
            r.laid_out(r.leaf(r.focused(NodeIdx::Split(r.text_root()))->0).parent)
        } else {
            m.laid_out(parent)
        };
        laid.freed(child)
    }

    pub open spec fn removed_views(
        self,
        views: Seq<TextView>,
        parent: SplitIdx,
        child: NodeIdx,
    ) -> Seq<TextView> {
        let m = self.dropped(parent, child);
        if m.split(parent).children.len() == 0 {
            m.reflowed_views(views, parent)
        } else {
            views
        }
    }

    /// What is laid out after `child` is gone stays within `u16`, and the focus
    /// leads from the first split to a leaf.
    pub open spec fn removal_fits(
        self,
        views: Seq<TextView>,
        parent: SplitIdx,
        child: NodeIdx,
    ) -> bool {
        let m = self.dropped(parent, child);
        &&& if m.split(parent).children.len() == 0 {
            let r = m.reflowed(views, parent);
            &&& m.reflow_fits(views, parent)
            &&& r.layout_fits(r.leaf(r.focused(NodeIdx::Split(r.text_root()))->0).parent)
        } else {
            m.layout_fits(parent)
        }
        &&& self.removed(views, parent, child).focused(NodeIdx::Split(SplitIdx(0))) is Some
    }
}

} // verus!
