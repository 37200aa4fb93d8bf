//! The tree of splits and leaves that the screen is divided into.
use vstd::prelude::*;
use crate::auto_complete::AutoComplete;
use crate::buffers::{BufferIdx, SCRATCH};
use crate::divide;
use crate::layout;
use crate::layout::{Anchors, AnchorsView, Constraints, ConstraintsView, Direction, Rect};
use crate::list_cmds;
use crate::tree;
use crate::tree::{
    ComponentView, LeafIdx, LeafView, NodeIdx, NodesView, Side, SplitIdx, SplitView,
    ROOT_TEXT_VIEW,
};
use crate::tree_growth;
use crate::tree_layout;
use crate::tree_pruning;
use crate::views::{TextView, ViewIdx, Views};

verus! {

/// Marks the leaf of the command line, whose state is kept beside the tree.
pub struct Dummy();

/// What a leaf shows and which keys it takes.
pub enum Component {
    View(ViewIdx),
    CmdLine(Dummy),
    AutoComplete(AutoComplete),
    BufferList,
}

impl View for Component {
    type V = ComponentView;

    open spec fn view(&self) -> ComponentView {
        match *self {
            Component::View(v) => ComponentView::View(v),
            Component::CmdLine(_) => ComponentView::CmdLine,
            Component::AutoComplete(a) => ComponentView::AutoComplete(a@),
            Component::BufferList => ComponentView::BufferList,
        }
    }
}

pub struct Leaf {
    pub parent: SplitIdx,
    pub rect: Rect,
    pub constraints: Constraints,
    pub anchors: Anchors,
    pub comp: Component,
}

impl View for Leaf {
    type V = LeafView;

    open spec fn view(&self) -> LeafView {
        LeafView {
            parent: self.parent,
            rect: self.rect,
            constraints: self.constraints@,
            anchors: self.anchors@,
            comp: self.comp@,
        }
    }
}

pub struct Split {
    pub parent: Option<SplitIdx>,
    pub children: Vec<NodeIdx>,
    pub direction: Direction,
    pub focus: usize,
    pub rect: Rect,
    pub constraints: Constraints,
    pub anchors: Anchors,
}

impl View for Split {
    type V = SplitView;

    open spec fn view(&self) -> SplitView {
        SplitView {
            parent: self.parent,
            children: self.children@,
            direction: self.direction,
            focus: self.focus as int,
            rect: self.rect,
            constraints: self.constraints@,
            anchors: self.anchors@,
        }
    }
}

/// The nodes in two arenas. A slot that is free is taken again by the next
/// node of its kind.
pub struct Nodes {
    roots: Vec<SplitIdx>,
    splits: Vec<Split>,
    leaves: Vec<Leaf>,
    free_splits: Vec<usize>,
    free_leaves: Vec<usize>,
}

pub open spec fn split_views(s: Seq<Split>) -> Seq<SplitView> {
    s.map_values(|v: Split| v@)
}

pub open spec fn leaf_views(s: Seq<Leaf>) -> Seq<LeafView> {
    s.map_values(|v: Leaf| v@)
}

impl View for Nodes {
    type V = NodesView;

    closed spec fn view(&self) -> NodesView {
        NodesView {
            roots: self.roots@,
            splits: split_views(self.splits@),
            leaves: leaf_views(self.leaves@),
            free_splits: self.free_splits@,
            free_leaves: self.free_leaves@,
        }
    }
}

impl Nodes {
    pub fn new() -> (res: Self)
        ensures
            res@ == NodesView::empty(),
    {
        let res: Nodes = Nodes {
            roots: Vec::new(),
            splits: Vec::new(),
            leaves: Vec::new(),
            free_splits: Vec::new(),
            free_leaves: Vec::new(),
        };
        assert(res@ =~= NodesView::empty());
        res
    }

    pub fn root_count(&self) -> (n: usize)
        ensures
            n == self@.roots.len(),
    {
        self.roots.len()
    }

    pub fn get_root(&self, ridx: usize) -> (res: SplitIdx)
        requires
            ridx < self@.roots.len(),
        ensures
            res == self@.roots[ridx as int],
    {
        self.roots[ridx]
    }

    pub fn get_split(&self, sidx: SplitIdx) -> (res: &Split)
        requires
            sidx.0 < self@.splits.len(),
        ensures
            res@ == self@.split(sidx),
    {
        &self.splits[sidx.0]
    }

    pub fn get_mut_split(&mut self, sidx: SplitIdx) -> (res: &mut Split)
        requires
            sidx.0 < old(self)@.splits.len(),
        ensures
            res@ == old(self)@.split(sidx),
            final(self)@ == old(self)@.with_split(sidx, final(res)@),
    {
        proof {
            lemma_split_views_update(self.splits@, sidx.0 as int);
        }
        &mut self.splits[sidx.0]
    }

    pub fn get_leaf(&self, lidx: LeafIdx) -> (res: &Leaf)
        requires
            lidx.0 < self@.leaves.len(),
        ensures
            res@ == self@.leaf(lidx),
    {
        &self.leaves[lidx.0]
    }

    pub fn get_mut_leaf(&mut self, lidx: LeafIdx) -> (res: &mut Leaf)
        requires
            lidx.0 < old(self)@.leaves.len(),
        ensures
            res@ == old(self)@.leaf(lidx),
            final(self)@ == old(self)@.with_leaf(lidx, final(res)@),
    {
        proof {
            lemma_leaf_views_update(self.leaves@, lidx.0 as int);
        }
        &mut self.leaves[lidx.0]
    }

    fn get_constraints(&self, nidx: NodeIdx) -> (res: &Constraints)
        requires
            self@.has(nidx),
        ensures
            res@ == self@.constraints_of(nidx),
    {
        match nidx {
            NodeIdx::Leaf(l) => &self.get_leaf(l).constraints,
            NodeIdx::Split(s) => &self.get_split(s).constraints,
        }
    }

    fn get_anchors(&self, nidx: NodeIdx) -> (res: &Anchors)
        requires
            self@.has(nidx),
        ensures
            res@ == self@.anchors_of(nidx),
    {
        match nidx {
            NodeIdx::Split(s) => &self.get_split(s).anchors,
            NodeIdx::Leaf(l) => &self.get_leaf(l).anchors,
        }
    }

    pub(crate) fn copy_children(&self, sidx: SplitIdx) -> (res: Vec<NodeIdx>)
        requires
            sidx.0 < self@.splits.len(),
        ensures
            res@ == self@.split(sidx).children,
    {
        let children = &self.splits[sidx.0].children;
        let mut res: Vec<NodeIdx> = Vec::new();
        let mut i: usize = 0;
        while i < children.len()
            invariant
                i <= children@.len(),
                res@ =~= children@.take(i as int),
            decreases children@.len() - i,
        {
            res.push(children[i]);
            i = i + 1;
        }
        res
    }

    /// The rectangles that a split gives to its children.
    fn measure(&self, sidx: SplitIdx, children: &Vec<NodeIdx>) -> (rects: Vec<Rect>)
        requires
            sidx.0 < self@.splits.len(),
            children@ == self@.split(sidx).children,
            self@.has_all(children@),
            self@.division_fits(sidx),
        ensures
            rects@ == self@.child_rects(sidx),
    {
        let direction: Direction = self.get_split(sidx).direction;
        let parent: Rect = self.get_split(sidx).rect;
        let mut mins: Vec<Option<u16>> = Vec::new();
        let mut maxes: Vec<Option<u16>> = Vec::new();
        let mut across: Vec<Option<u16>> = Vec::new();
        let mut along: Vec<Option<u16>> = Vec::new();
        let mut i: usize = 0;
        while i < children.len()
            invariant
                i <= children@.len(),
                sidx.0 < self@.splits.len(),
                children@ == self@.split(sidx).children,
                self@.has_all(children@),
                self@.division_fits(sidx),
                direction == self@.split(sidx).direction,
                parent == self@.split(sidx).rect,
                mins@.len() == i,
                maxes@.len() == i,
                across@.len() == i,
                along@.len() == i,
                forall|k: int|
                    0 <= k < i ==> layout::option_int(#[trigger] mins@[k]) == self@.least_sizes(
                        sidx,
                    )[k],
                forall|k: int|
                    0 <= k < i ==> layout::option_int(#[trigger] maxes@[k]) == self@.greatest_sizes(
                        sidx,
                    )[k],
                forall|k: int|
                    0 <= k < i ==> layout::option_int(#[trigger] across@[k])
                        == self@.anchors_across(sidx)[k],
                forall|k: int|
                    0 <= k < i ==> layout::option_int(#[trigger] along@[k]) == self@.anchors_along(
                        sidx,
                    )[k],
            decreases children@.len() - i,
        {
            let n: NodeIdx = children[i];
            assert(self@.has(n));
            assert(self@.asks_fit(sidx, n));
            let c: &Constraints = self.get_constraints(n);
            let a: &Anchors = self.get_anchors(n);
            mins.push(c.calc_min_width(parent));
            match direction {
                Direction::Vertical => {
                    maxes.push(c.calc_max_width(parent));
                    across.push(a.calc_y(parent));
                    along.push(a.calc_x(parent));
                },
                Direction::Horizontal => {
                    maxes.push(c.calc_max_height(parent));
                    across.push(a.calc_x(parent));
                    along.push(a.calc_y(parent));
                },
            }
            i = i + 1;
        }
        assert(divide::option_ints(mins@) =~= self@.least_sizes(sidx));
        assert(divide::option_ints(maxes@) =~= self@.greatest_sizes(sidx));
        assert(divide::option_ints(across@) =~= self@.anchors_across(sidx));
        assert(divide::option_ints(along@) =~= self@.anchors_along(sidx));
        divide::divide(direction, parent, &mins, &maxes, &across, &along)
    }

    fn set_rect(&mut self, n: NodeIdx, rect: Rect)
        requires
            old(self)@.has(n),
        ensures
            final(self)@ == old(self)@.with_rect(n, rect),
    {
        match n {
            NodeIdx::Split(s) => {
                self.get_mut_split(s).rect = rect;
            },
            NodeIdx::Leaf(l) => {
                self.get_mut_leaf(l).rect = rect;
            },
        }
    }

    fn recalc_ranked(&mut self, sidx: SplitIdx, Ghost(rank): Ghost<Seq<nat>>)
        requires
            old(self)@.sound(),
            old(self)@.ranked(rank),
            sidx.0 < old(self)@.splits.len(),
            old(self)@.relayout_fits(sidx, rank[sidx.0 as int] + 1),
        ensures
            final(self)@ == old(self)@.relayout(sidx, rank[sidx.0 as int] + 1),
        decreases rank[sidx.0 as int],
    {
        let ghost before = self@;
        let ghost r = rank[sidx.0 as int];
        let children: Vec<NodeIdx> = self.copy_children(sidx);
        proof {
            assert forall|k: int| 0 <= k < children@.len() implies before.has(
                #[trigger] children@[k],
            ) by {
                let _ = before.splits[sidx.0 as int].children[k];
            }
            assert forall|k: int| 0 <= k < children@.len() implies (
            #[trigger] children@[k] matches NodeIdx::Split(c) ==> rank[c.0 as int] < r) by {
                let _ = before.splits[sidx.0 as int].children[k];
            }
        }
        let rects: Vec<Rect> = self.measure(sidx, &children);
        let ghost placed = before.with_rects(children@, rects@);
        let mut i: usize = 0;
        assert(children@.take(0) =~= Seq::<NodeIdx>::empty());
        while i < children.len()
            invariant
                i <= children@.len(),
                rects@.len() == children@.len(),
                before.has_all(children@),
                self@ == before.with_rects(children@.take(i as int), rects@),
            decreases children@.len() - i,
        {
            let n: NodeIdx = children[i];
            let rect: Rect = rects[i];
            proof {
                let done = children@.take(i as int);
                assert forall|k: int| 0 <= k < done.len() implies before.has(
                    #[trigger] done[k],
                ) by {
                    let _ = children@[k];
                }
                tree_layout::lemma_with_rects_moved(before, done, rects@);
                assert(before.has(n));
                assert(children@.take(i + 1).drop_last() =~= done);
                assert(children@.take(i + 1).last() == n);
            }
            self.set_rect(n, rect);
            i = i + 1;
        }
        proof {
            assert(children@.take(i as int) =~= children@);
            tree_layout::lemma_with_rects_moved(before, children@, rects@);
            tree_layout::lemma_moved_sound(before, placed);
            tree_layout::lemma_moved_ranked(before, placed, rank);
            assert(children@.take(0) =~= Seq::<NodeIdx>::empty());
            assert(placed.relayout_each_fits(children@, r));
        }
        let mut j: usize = 0;
        while j < children.len()
            invariant
                j <= children@.len(),
                placed.sound(),
                placed.ranked(rank),
                placed.has_all(children@),
                placed.relayout_each_fits(children@, r),
                forall|k: int|
                    0 <= k < children@.len() ==> (
                    #[trigger] children@[k] matches NodeIdx::Split(c) ==> rank[c.0 as int] < r),
                self@ == placed.relayout_each(children@.take(j as int), r),
                r == rank[sidx.0 as int],
            decreases children@.len() - j,
        {
            let n: NodeIdx = children[j];
            proof {
                let done = children@.take(j as int);
                let next = children@.take(j + 1);
                assert forall|k: int| 0 <= k < done.len() implies placed.has(
                    #[trigger] done[k],
                ) by {
                    let _ = children@[k];
                }
                assert(placed.has(children@[j as int]));
                tree_layout::lemma_relayout_each_moved(placed, done, r);
                tree_layout::lemma_moved_sound(placed, self@);
                tree_layout::lemma_moved_ranked(placed, self@, rank);
                assert(next.drop_last() =~= done);
                assert(next.last() == n);
                lemma_prefix_fits(placed, children@, r, j + 1);
                if let NodeIdx::Split(c) = n {
                    tree_layout::lemma_relayout_depth(self@, c, rank, r, rank[c.0 as int] + 1);
                }
            }
            match n {
                NodeIdx::Split(c) => {
                    self.recalc_ranked(c, Ghost(rank));
                },
                NodeIdx::Leaf(_) => {},
            }
            j = j + 1;
        }
        assert(children@.take(j as int) =~= children@);
    }

    /// Lays out the tree below a split afresh.
    pub fn recalc(&mut self, sidx: SplitIdx)
        requires
            exists|loose: int| old(self)@.linked(loose),
            sidx.0 < old(self)@.splits.len(),
            old(self)@.layout_fits(sidx),
        ensures
            final(self)@ == old(self)@.laid_out(sidx),
            old(self)@.moved(final(self)@),
    {
        let ghost loose = choose|loose: int| self@.linked(loose);
        let ghost rank = choose|rank: Seq<nat>| self@.ranked(rank);
        proof {
            tree_layout::lemma_linked_sound(self@, loose);
            tree_layout::lemma_relayout_depth(
                self@,
                sidx,
                rank,
                self@.splits.len(),
                rank[sidx.0 as int] + 1,
            );
            tree_layout::lemma_relayout_moved(self@, sidx, self@.splits.len());
        }
        self.recalc_ranked(sidx, Ghost(rank));
    }
    fn push_leaf(&mut self, leaf: Leaf) -> (lidx: LeafIdx)
        requires
            exists|loose: int| old(self)@.linked(loose),
        ensures
            final(self)@ == old(self)@.with_new_leaf(leaf@),
            lidx == old(self)@.new_leaf_idx(),
            final(self)@.leaves.len() <= usize::MAX,
    {
        let ghost before = self@;
        let ghost v = leaf@;
        if self.free_leaves.is_empty() {
            let lidx: usize = self.leaves.len();
            proof {
                lemma_leaf_views_push(self.leaves@, leaf);
            }
            self.leaves.push(leaf);
            assert(self.leaves.len() <= usize::MAX);
            assert(self@ =~= before.with_new_leaf(v));
            LeafIdx(lidx)
        } else {
            assert(before.free_leaves[before.free_leaves.len() - 1] < before.leaves.len());
            let lidx: usize = self.free_leaves.pop().unwrap();
            proof {
                lemma_leaf_views_update(self.leaves@, lidx as int);
            }
            self.leaves[lidx] = leaf;
            assert(self.leaves.len() <= usize::MAX);
            assert(self@ =~= before.with_new_leaf(v));
            LeafIdx(lidx)
        }
    }

    fn push_branch(&mut self, split: Split) -> (sidx: SplitIdx)
        requires
            exists|loose: int| old(self)@.linked(loose),
        ensures
            final(self)@ == old(self)@.with_new_split(split@),
            sidx == old(self)@.new_split_idx(),
            final(self)@.splits.len() <= usize::MAX,
    {
        let ghost before = self@;
        let ghost v = split@;
        if self.free_splits.is_empty() {
            let sidx: usize = self.splits.len();
            proof {
                lemma_split_views_push(self.splits@, split);
            }
            self.splits.push(split);
            assert(self.splits.len() <= usize::MAX);
            assert(self@ =~= before.with_new_split(v));
            SplitIdx(sidx)
        } else {
            assert(before.free_splits[before.free_splits.len() - 1] < before.splits.len());
            let sidx: usize = self.free_splits.pop().unwrap();
            proof {
                lemma_split_views_update(self.splits@, sidx as int);
            }
            self.splits[sidx] = split;
            assert(self.splits.len() <= usize::MAX);
            assert(self@ =~= before.with_new_split(v));
            SplitIdx(sidx)
        }
    }

    fn attach(&mut self, sidx: SplitIdx, n: NodeIdx)
        requires
            sidx.0 < old(self)@.splits.len(),
        ensures
            final(self)@ == old(self)@.attached(sidx, n),
    {
        self.get_mut_split(sidx).children.push(n);
    }

    /// A new root: a split without a parent, as large as its constraints let
    /// it be on a screen of the given size.
    pub fn new_root(
        &mut self,
        constraints: Constraints,
        anchors: Anchors,
        width: u16,
        height: u16,
        direction: Direction,
    ) -> (new_root: SplitIdx)
        requires
            old(self)@.linked(-1),
            layout::option_extent_fits(constraints@.max_width, width as int),
            layout::option_extent_fits(constraints@.max_height, height as int),
        ensures
            final(self)@ == old(self)@.rooted(constraints@, anchors@, width, height, direction),
            new_root == old(self)@.new_split_idx(),
            final(self)@.linked(-1),
            old(self)@.wf() ==> final(self)@.wf(),
            final(self)@.live(NodeIdx::Split(new_root)),
    {
        let ghost before = self@;
        let parent: Rect = Rect { x: 0, y: 0, w: width, h: height };
        let w: u16 = match constraints.calc_max_width(parent) {
            Some(w) => w,
            None => width,
        };
        let h: u16 = match constraints.calc_max_height(parent) {
            Some(h) => h,
            None => height,
        };
        let split: Split = Split {
            parent: None,
            children: Vec::new(),
            focus: 0,
            direction,
            rect: Rect { x: 0, y: 0, w, h },
            constraints,
            anchors,
        };
        let ghost v = split@;
        assert(v.children =~= Seq::<NodeIdx>::empty());
        let new_root: SplitIdx = self.push_branch(split);
        self.roots.push(new_root);
        proof {
            tree_growth::lemma_new_split_linked(before, v);
            tree_growth::lemma_root_linked(before.with_new_split(v), new_root);
            assert(self@ =~= before.rooted(constraints@, anchors@, width, height, direction));
        }
        new_root
    }

    /// A new leaf as the last child of `parent`, which is laid out afresh.
    pub fn new_leaf(
        &mut self,
        comp: Component,
        parent: SplitIdx,
        constraints: Constraints,
        anchors: Anchors,
    ) -> (lidx: LeafIdx)
        requires
            exists|loose: int| old(self)@.linked(loose),
            old(self)@.live(NodeIdx::Split(parent)),
            old(self)@.grown_fits(comp@, parent, constraints@, anchors@),
        ensures
            final(self)@ == old(self)@.grown(comp@, parent, constraints@, anchors@),
            lidx == old(self)@.new_leaf_idx(),
            forall|loose: int| #[trigger]
                old(self)@.linked(loose) ==> final(self)@.linked(loose),
            old(self)@.wf() ==> final(self)@.wf(),
            old(self)@.planted(comp@, parent, constraints@, anchors@).moved(final(self)@),
            final(self)@.leaves.len() <= usize::MAX,
    {
        let ghost before = self@;
        let ghost planted = before.planted(comp@, parent, constraints@, anchors@);
        let lidx: LeafIdx = self.push_leaf(
            Leaf { parent, comp, rect: Rect { x: 0, y: 0, h: 0, w: 0 }, constraints, anchors },
        );
        self.attach(parent, NodeIdx::Leaf(lidx));
        proof {
            assert(self@ == planted);
            assert forall|loose: int| #[trigger] before.linked(loose) implies planted.linked(
                loose,
            ) by {
                tree_growth::lemma_planted_linked(
                    before,
                    loose,
                    comp@,
                    parent,
                    constraints@,
                    anchors@,
                );
            }
            let loose = choose|loose: int| before.linked(loose);
            tree_growth::lemma_planted_linked(
                before,
                loose,
                comp@,
                parent,
                constraints@,
                anchors@,
            );
            tree_layout::lemma_linked_sound(planted, loose);
        }
        self.recalc(parent);
        proof {
            assert forall|loose: int| #[trigger] before.linked(loose) implies self@.linked(
                loose,
            ) by {
                tree_layout::lemma_moved_linked(planted, self@, loose);
            }
            if before.wf() {
                tree_layout::lemma_moved_filled(planted, self@);
            }
        }
        lidx
    }

    /// A new split as the last child of `parent`, with one new leaf in it.
    pub fn new_split(
        &mut self,
        comp: Component,
        parent: SplitIdx,
        direction: Direction,
        constraints: Constraints,
        anchors: Anchors,
    ) -> (res: (LeafIdx, SplitIdx))
        requires
            old(self)@.linked(-1),
            old(self)@.live(NodeIdx::Split(parent)),
            old(self)@.forked_fits(comp@, parent, direction, constraints@, anchors@),
        ensures
            final(self)@ == old(self)@.forked(comp@, parent, direction, constraints@, anchors@),
            res.0 == old(self)@.new_leaf_idx(),
            res.1 == old(self)@.new_split_idx(),
            final(self)@.linked(-1),
            old(self)@.wf() ==> final(self)@.wf(),
            final(self)@.live(NodeIdx::Split(res.1)),
            res.1 != parent,
            parent.0 < final(self)@.splits.len(),
            final(self)@.split(parent).children == old(self)@.split(parent).children.push(
                NodeIdx::Split(res.1),
            ),
            final(self)@.split(parent).focus == old(self)@.split(parent).focus,
    {
        let ghost before = self@;
        let ghost cv = constraints@;
        let ghost av = anchors@;
        let ghost kv = comp@;
        let ghost branched = before.branched(parent, direction, cv, av);
        let split: Split = Split {
            parent: Some(parent),
            children: Vec::new(),
            focus: 0,
            direction,
            rect: Rect { x: 0, y: 0, h: 0, w: 0 },
            constraints,
            anchors,
        };
        assert(split@.children =~= Seq::<NodeIdx>::empty());
        let new_parent: SplitIdx = self.push_branch(split);
        self.attach(parent, NodeIdx::Split(new_parent));
        proof {
            assert(self@ == branched);
            tree_growth::lemma_branched_linked(before, parent, direction, cv, av);
        }
        let lidx: LeafIdx = self.new_leaf(comp, new_parent, Constraints::new(), Anchors::new());
        let ghost grown = self@;
        proof {
            let planted = branched.planted(
                kv,
                new_parent,
                ConstraintsView::free(),
                AnchorsView::free(),
            );
            tree_growth::lemma_planted_linked(
                branched,
                -1,
                kv,
                new_parent,
                ConstraintsView::free(),
                AnchorsView::free(),
            );
            tree_layout::lemma_linked_sound(planted, -1);
            if before.wf() {
                tree_growth::lemma_forked_filled(before, kv, parent, direction, cv, av);
                tree_layout::lemma_moved_filled(planted, grown);
            }
            tree_layout::lemma_linked_sound(grown, -1);
        }
        self.recalc(parent);
        proof {
            tree_layout::lemma_moved_linked(grown, self@, -1);
            if before.wf() {
                tree_layout::lemma_moved_filled(grown, self@);
            }
            let p = parent.0 as int;
            assert(self@.splits[p].children == grown.splits[p].children);
            assert(self@.splits[p].focus == grown.splits[p].focus);
        }
        (lidx, new_parent)
    }

    fn remove(&mut self, nidx: NodeIdx)
        ensures
            final(self)@ == old(self)@.freed(nidx),
    {
        let ghost before = self@;
        match nidx {
            NodeIdx::Leaf(lidx) => {
                self.free_leaves.push(lidx.0);
            },
            NodeIdx::Split(sidx) => {
                self.free_splits.push(sidx.0);
            },
        }
        assert(self@ =~= before.freed(nidx));
    }

    /// Gives every root its size on a screen and lays it out.
    pub fn recalc_including_root(&mut self, width: u16, height: u16)
        requires
            old(self)@.linked(-1),
            old(self)@.resized_fits(width, height),
        ensures
            final(self)@ == old(self)@.resized(width, height),
            old(self)@.moved(final(self)@),
    {
        let ghost before = self@;
        let ghost roots = self@.roots;
        let mut i: usize = 0;
        assert(roots.take(0) =~= Seq::<SplitIdx>::empty());
        while i < self.roots.len()
            invariant
                i <= roots.len(),
                roots == before.roots,
                before.linked(-1),
                before.resized_each_fits(roots, width, height),
                before.moved(self@),
                self@ == before.resized_each(roots.take(i as int), width, height),
            decreases roots.len() - i,
        {
            let r: SplitIdx = self.roots[i];
            let ghost m = self@;
            proof {
                let next = roots.take(i + 1);
                assert(next.drop_last() =~= roots.take(i as int));
                assert(next.last() == r);
                lemma_resized_prefix_fits(before, roots, width, height, i + 1);
                assert(before.live(NodeIdx::Split(before.roots[i as int])));
                tree_layout::lemma_moved_linked(before, m, -1);
            }
            let parent: Rect = Rect { x: 0, y: 0, w: width, h: height };
            let old_rect: Rect = self.get_split(r).rect;
            let h: u16 = match self.get_split(r).constraints.calc_max_height(parent) {
                Some(h) => h,
                None => height,
            };
            let w: u16 = match self.get_split(r).constraints.calc_max_width(parent) {
                Some(w) => w,
                None => width,
            };
            self.set_rect(NodeIdx::Split(r), Rect { x: old_rect.x, y: old_rect.y, h, w });
            proof {
                assert(self@ == m.with_root_size(r, width, height));
                tree_layout::lemma_moved_trans(before, m, self@);
                tree_layout::lemma_moved_linked(before, self@, -1);
            }
            let ghost sized = self@;
            self.recalc(r);
            proof {
                tree_layout::lemma_moved_trans(before, sized, self@);
            }
            i = i + 1;
        }
        assert(roots.take(i as int) =~= roots);
    }

    /// The leaf that the focus leads to.
    pub fn follow_focus(&self, n: NodeIdx) -> (lidx: LeafIdx)
        requires
            self@.sound(),
            self@.has(n),
            self@.focused(n) is Some,
        ensures
            self@.focused(n) == Some(lidx),
    {
        let ghost mut depth: nat = self@.splits.len();
        let mut curr: NodeIdx = n;
        loop
            invariant
                self@.sound(),
                self@.has(curr),
                self@.focused(n) is Some,
                self@.follow(curr, depth) == self@.focused(n),
            decreases depth,
        {
            match curr {
                NodeIdx::Split(s) => {
                    let split: &Split = self.get_split(s);
                    proof {
                        let v = self@.split(s);
                        assert(self@.has(self@.splits[s.0 as int].children[v.focus]));
                        depth = (depth - 1) as nat;
                    }
                    curr = split.children[split.focus];
                },
                NodeIdx::Leaf(l) => {
                    return l;
                },
            }
        }
    }

    /// The first place of a node among the children of a split.
    pub fn position(&self, sidx: SplitIdx, n: NodeIdx) -> (res: Option<usize>)
        requires
            sidx.0 < self@.splits.len(),
        ensures
            match res {
                Some(i) => i < self@.split(sidx).children.len() && self@.split(sidx).children[i as int]
                    == n && forall|k: int|
                    0 <= k < i ==> self@.split(sidx).children[k] != n,
                None => !self@.split(sidx).children.contains(n),
            },
    {
        let children: &Vec<NodeIdx> = &self.get_split(sidx).children;
        let mut i: usize = 0;
        while i < children.len()
            invariant
                i <= children@.len(),
                children@ == self@.split(sidx).children,
                forall|k: int| 0 <= k < i ==> children@[k] != n,
            decreases children@.len() - i,
        {
            if children[i] == n {
                return Some(i);
            }
            i = i + 1;
        }
        None
    }

    /// Takes out the empty splits from `parent` upwards.
    fn prune(&mut self, parent: SplitIdx, Ghost(loose): Ghost<int>, Ghost(rank): Ghost<Seq<nat>>)
        requires
            old(self)@.linked(loose),
            old(self)@.ranked(rank),
            old(self)@.live(NodeIdx::Split(parent)),
            loose < 0 || (loose < old(self)@.splits.len() && rank[loose] < rank[parent.0 as int]),
        ensures
            final(self)@ == old(self)@.trimmed(parent),
    {
        let ghost before = self@;
        let ghost n = self@.splits.len();
        let ghost mut depth: nat = n;
        let mut curr: SplitIdx = parent;
        loop
            invariant
                self@.linked(loose),
                self@.ranked(rank),
                self@.splits.len() == n,
                self@.live(NodeIdx::Split(curr)),
                loose < 0 || (loose < n && rank[loose] < rank[curr.0 as int]),
                before.splits.len() == n,
                before.pruned(parent, n) == self@.pruned(curr, depth),
                depth + rank[curr.0 as int] >= n,
                before == old(self)@,
            decreases depth,
        {
            assert(rank[curr.0 as int] < rank.len());
            if !self.get_split(curr).children.is_empty() {
                return ;
            }
            let p: SplitIdx = match self.get_split(curr).parent {
                Some(p) => p,
                None => {
                    return ;
                },
            };
            let ghost m = self@;
            let ghost x = NodeIdx::Split(curr);
            proof {
                assert(m.parent_linked(curr.0 as int));
                assert(m.children_linked(p.0 as int));
                tree_pruning::lemma_remove_index(m.split(p).children, x);
                tree_pruning::lemma_only_parent_holds(m, loose, x, p.0 as int);
                tree_pruning::lemma_cut_linked(m, loose, rank, curr, p);
                if m.free_splits.contains(p.0) {
                    let k = choose|k: int| 0 <= k < m.free_splits.len() && m.free_splits[k] == p.0;
                    assert(m.splits[m.free_splits[k] as int].children.len() == 0);
                }
            }
            let at: usize = self.position(p, NodeIdx::Split(curr)).unwrap();
            assert(at == m.split(p).children.index_of(x)) by {
                assert(m.split(p).children[at as int] == x);
            }
            let split: &mut Split = self.get_mut_split(p);
            split.children.remove(at);
            split.focus = split.focus.saturating_sub(1);
            self.remove(NodeIdx::Split(curr));
            assert(self@ == m.cut(curr, p));
            proof {
                depth = (depth - 1) as nat;
            }
            curr = p;
        }
    }

    fn reflow_around(
        &mut self,
        focus: &mut LeafIdx,
        views: &mut Views,
        parent: SplitIdx,
        Ghost(loose): Ghost<int>,
        Ghost(rank): Ghost<Seq<nat>>,
    )
        requires
            old(self)@.linked(loose),
            old(self)@.ranked(rank),
            old(self)@.live(NodeIdx::Split(parent)),
            loose < 0 || (loose < old(self)@.splits.len() && rank[loose] < rank[parent.0 as int]),
            old(self)@.reflow_fits(old(views)@, parent),
        ensures
            final(self)@ == old(self)@.reflowed(old(views)@, parent),
            final(views)@ == old(self)@.reflowed_views(old(views)@, parent),
            final(self)@.focused(NodeIdx::Split(old(self)@.text_root())) == Some(*final(focus)),
            final(self)@.linked(loose),
            old(self)@.filled_except(parent) ==> final(self)@.filled(),
            final(self)@.roots == old(self)@.roots,
            forall|n: NodeIdx|
                old(self)@.live(n) && n is Leaf && old(self)@.detached(n) ==> final(self)@.live(n)
                    && #[trigger] final(self)@.detached(n),
    {
        let ghost before = self@;
        let ghost trimmed = before.trimmed(parent);
        proof {
            tree_pruning::lemma_pruned_linked(before, loose, rank, parent, before.splits.len());
        }
        self.prune(parent, Ghost(loose), Ghost(rank));
        let root: SplitIdx = self.get_root(ROOT_TEXT_VIEW);
        assert(trimmed.live(NodeIdx::Split(trimmed.roots[0])));
        if self.get_split(root).children.is_empty() {
            let vidx: ViewIdx = views.push(TextView::new(BufferIdx { idx: SCRATCH }));
            proof {
                tree_pruning::lemma_with_focus_linked(trimmed, loose, root, 0);
            }
            self.get_mut_split(root).focus = 0;
            let ghost reset = self@;
            assert(reset == trimmed.with_focus(root, 0));
            self.new_leaf(Component::View(vidx), root, Constraints::new(), Anchors::new());
            proof {
                let comp = ComponentView::View(vidx);
                let c = ConstraintsView::free();
                let a = AnchorsView::free();
                let planted = reset.planted(comp, root, c, a);
                tree_growth::lemma_planted_linked(reset, loose, comp, root, c, a);
                tree_layout::lemma_linked_sound(planted, loose);
                if trimmed.filled() {
                    tree_layout::lemma_moved_filled(planted, self@);
                }
                assert forall|n: NodeIdx|
                    before.live(n) && n is Leaf && before.detached(n) implies self@.live(n)
                    && #[trigger] self@.detached(n) by {
                    assert(trimmed.detached(n));
                    assert(reset.detached(n)) by {
                        assert forall|i: int| 0 <= i < reset.splits.len() implies !(
                        #[trigger] reset.splits[i]).children.contains(n) by {
                            let _ = trimmed.splits[i];
                        }
                    }
                    tree_pruning::lemma_planted_detached(reset, loose, comp, root, c, a, n);
                    tree_pruning::lemma_moved_detached(planted, self@, n);
                }
            }
        }
        proof {
            tree_layout::lemma_linked_sound(self@, loose);
        }
        *focus = self.follow_focus(NodeIdx::Split(root));
    }

    /// Takes out the empty splits from `parent` upwards, sees to it that the
    /// text root is not empty, and moves the focus there.
    pub fn reflow(&mut self, focus: &mut LeafIdx, views: &mut Views, parent: SplitIdx)
        requires
            old(self)@.linked(-1),
            old(self)@.live(NodeIdx::Split(parent)),
            old(self)@.reflow_fits(old(views)@, parent),
        ensures
            final(self)@ == old(self)@.reflowed(old(views)@, parent),
            final(views)@ == old(self)@.reflowed_views(old(views)@, parent),
            final(self)@.focused(NodeIdx::Split(old(self)@.text_root())) == Some(*final(focus)),
            final(self)@.linked(-1),
            old(self)@.filled_except(parent) ==> final(self)@.wf(),
    {
        let ghost rank = choose|rank: Seq<nat>| self@.ranked(rank);
        self.reflow_around(focus, views, parent, Ghost(-1), Ghost(rank));
    }

    fn drop_child(&mut self, parent: SplitIdx, child: NodeIdx)
        requires
            old(self)@.linked(-1),
            parent.0 < old(self)@.splits.len(),
        ensures
            final(self)@ == old(self)@.dropped(parent, child),
    {
        let ghost before = self@;
        assert(before.children_linked(parent.0 as int));
        let children: Vec<NodeIdx> = self.copy_children(parent);
        let focus: usize = self.get_split(parent).focus;
        let mut rest: Vec<NodeIdx> = Vec::new();
        let mut i: usize = 0;
        assert(tree::without(children@.take(0), child) =~= Seq::<NodeIdx>::empty()) by {
            reveal(Seq::filter);
        }
        while i < children.len()
            invariant
                i <= children@.len(),
                rest@.len() <= i,
                rest@ == tree::without(children@.take(i as int), child),
            decreases children@.len() - i,
        {
            let n: NodeIdx = children[i];
            proof {
                reveal(Seq::filter);
                assert(children@.take(i + 1).drop_last() =~= children@.take(i as int));
                assert(children@.take(i + 1).last() == n);
            }
            if n != child {
                rest.push(n);
            }
            i = i + 1;
        }
        assert(children@.take(i as int) =~= children@);
        let count: usize = rest.len();
        let new_focus: usize = if count == 0 {
            0
        } else {
            proof {
                lemma_focus_step(focus as int, count as int);
            }
            let step: usize = focus % count;
            if step == 0 {
                count - 1
            } else {
                step - 1
            }
        };
        let split: &mut Split = self.get_mut_split(parent);
        split.children = rest;
        split.focus = new_focus;
    }

    /// Takes a child out of a split, lays out what is left, and moves the focus
    /// to where it leads from the first split. A split that has lost its last
    /// child goes too.
    pub fn remove_child(
        &mut self,
        parent: SplitIdx,
        views: &mut Views,
        focus: &mut LeafIdx,
        child: NodeIdx,
    )
        requires
            old(self)@.linked(-1),
            old(self)@.live(NodeIdx::Split(parent)),
            old(self)@.removal_fits(old(views)@, parent, child),
        ensures
            final(self)@ == old(self)@.removed(old(views)@, parent, child),
            final(views)@ == old(self)@.removed_views(old(views)@, parent, child),
            final(self)@.focused(NodeIdx::Split(SplitIdx(0))) == Some(*final(focus)),
            child is Leaf && old(self)@.split(parent).children.contains(child) ==> {
                &&& final(self)@.linked(-1)
                &&& old(self)@.wf() ==> final(self)@.wf()
            },
    {
        let ghost before = self@;
        let ghost rank = choose|rank: Seq<nat>| before.ranked(rank);
        let ghost loose = tree_pruning::loose_index(before, parent, child);
        let ghost m = before.dropped(parent, child);
        proof {
            tree_pruning::lemma_dropped_linked(before, rank, parent, child);
            if before.split(parent).children.contains(child) {
                tree_pruning::lemma_only_parent_holds(before, -1, child, parent.0 as int);
                let c = before.splits[parent.0 as int].children;
                let k = choose|k: int| 0 <= k < c.len() && c[k] == child;
                assert(before.splits[parent.0 as int].children[k] == child);
            }
        }
        self.drop_child(parent, child);
        if self.get_split(parent).children.is_empty() {
            self.reflow_around(focus, views, parent, Ghost(loose), Ghost(rank));
            let ghost r = self@;
            proof {
                assert(r.live(NodeIdx::Split(r.roots[0])));
                tree_layout::lemma_linked_sound(r, loose);
                tree_pruning::lemma_follow_in(
                    r,
                    NodeIdx::Split(r.text_root()),
                    r.splits.len(),
                );
            }
            let p: SplitIdx = self.get_leaf(*focus).parent;
            self.recalc(p);
            proof {
                tree_layout::lemma_moved_linked(r, self@, loose);
                if r.filled() {
                    tree_layout::lemma_moved_filled(r, self@);
                }
                if m.live(child) && child is Leaf && m.detached(child) {
                    assert(r.detached(child));
                    tree_pruning::lemma_moved_detached(r, self@, child);
                }
            }
        } else {
            proof {
                tree_layout::lemma_linked_sound(m, loose);
                if m.filled_except(parent) {
                    assert(m.filled());
                }
            }
            self.recalc(parent);
            proof {
                tree_layout::lemma_moved_linked(m, self@, loose);
                if m.filled() {
                    tree_layout::lemma_moved_filled(m, self@);
                }
                if m.detached(child) {
                    tree_pruning::lemma_moved_detached(m, self@, child);
                }
            }
        }
        let ghost laid = self@;
        self.remove(child);
        proof {
            tree_layout::lemma_linked_sound(laid, loose);
            assert forall|i: int, k: int|
                0 <= i < self@.splits.len() && 0 <= k
                    < self@.splits[i].children.len() implies self@.has(
                #[trigger] self@.splits[i].children[k],
            ) by {
                assert(laid.has(laid.splits[i].children[k]));
            }
            if child is Leaf && before.split(parent).children.contains(child) {
                tree_pruning::lemma_freed_leaf_linked(laid, child->Leaf_0);
            }
        }
        *focus = self.follow_focus(NodeIdx::Split(SplitIdx(0)));
    }

    fn get_rect(&self, n: NodeIdx) -> (res: Rect)
        requires
            self@.has(n),
        ensures
            res == self@.rect_of(n),
    {
        match n {
            NodeIdx::Leaf(l) => self.get_leaf(l).rect,
            NodeIdx::Split(s) => self.get_split(s).rect,
        }
    }

    /// Whether a node lies on the given side of a rectangle.
    fn is_beyond(&self, n: NodeIdx, side: Side, from: Rect) -> (res: bool)
        requires
            self@.has(n),
            self@.edge_fits(n, side),
            side is Right ==> from.x + from.w <= u16::MAX,
            side is Down ==> from.y + from.h <= u16::MAX,
        ensures
            res == self@.lies(n, side, from),
    {
        let r: Rect = self.get_rect(n);
        match side {
            Side::Right => r.x >= from.x + from.w,
            Side::Left => r.x + r.w <= from.x,
            Side::Up => r.y + r.h <= from.y,
            Side::Down => r.y >= from.y + from.h,
        }
    }

    /// The place of the nearest child on the given side of a rectangle.
    fn nearest(&self, sidx: SplitIdx, side: Side, from: Rect) -> (res: Option<usize>)
        requires
            self@.sound(),
            sidx.0 < self@.splits.len(),
            side is Right ==> from.x + from.w <= u16::MAX,
            side is Down ==> from.y + from.h <= u16::MAX,
            side is Left || side is Up ==> self@.beyond_fits(
                self@.split(sidx).children,
                side,
                from,
            ),
        ensures
            match res {
                Some(i) => self@.beyond(self@.split(sidx).children, side, from) == Some(i as int)
                    && i < self@.split(sidx).children.len(),
                None => self@.beyond(self@.split(sidx).children, side, from) is None,
            },
    {
        let children: &Vec<NodeIdx> = &self.get_split(sidx).children;
        assert forall|k: int| 0 <= k < children@.len() implies self@.has(
            #[trigger] children@[k],
        ) by {
            assert(self@.has(self@.splits[sidx.0 as int].children[k]));
        }
        let forward: bool = match side {
            Side::Right => true,
            Side::Down => true,
            Side::Left => false,
            Side::Up => false,
        };
        if forward {
            let mut i: usize = 0;
            assert(children@.take(0) =~= Seq::<NodeIdx>::empty());
            while i < children.len()
                invariant
                    i <= children@.len(),
                    children@ == self@.split(sidx).children,
                    self@.has_all(children@),
                    side is Right || side is Down,
                    side is Right ==> from.x + from.w <= u16::MAX,
                    side is Down ==> from.y + from.h <= u16::MAX,
                    self@.first_beyond(children@.take(i as int), side, from) is None,
                decreases children@.len() - i,
            {
                proof {
                    let next = children@.take(i + 1);
                    assert(next.drop_last() =~= children@.take(i as int));
                    assert(next.last() == children@[i as int]);
                    assert(self@.has(children@[i as int]));
                }
                if self.is_beyond(children[i], side, from) {
                    proof {
                        lemma_first_beyond_extends(self@, children@, side, from, i + 1);
                    }
                    return Some(i);
                }
                i = i + 1;
            }
            assert(children@.take(i as int) =~= children@);
            None
        } else {
            let mut i: usize = children.len();
            assert(children@.take(i as int) =~= children@);
            while i > 0
                invariant
                    i <= children@.len(),
                    children@ == self@.split(sidx).children,
                    self@.has_all(children@),
                    side is Left || side is Up,
                    self@.beyond_fits(children@.take(i as int), side, from),
                    self@.last_beyond(children@, side, from) == self@.last_beyond(
                        children@.take(i as int),
                        side,
                        from,
                    ),
                decreases i,
            {
                proof {
                    let now = children@.take(i as int);
                    assert(now.drop_last() =~= children@.take(i - 1));
                    assert(now.last() == children@[i - 1]);
                    assert(self@.has(children@[i - 1]));
                }
                i = i - 1;
                if self.is_beyond(children[i], side, from) {
                    return Some(i);
                }
            }
            assert(children@.take(0) =~= Seq::<NodeIdx>::empty());
            None
        }
    }

    /// Moves the focus from a leaf to the nearest node on one of its sides, if
    /// there is one.
    fn focus_towards(&mut self, side: Side, focus: &mut LeafIdx)
        requires
            old(self)@.wf(),
            old(focus).0 < old(self)@.leaves.len(),
            old(self)@.live(NodeIdx::Split(old(self)@.leaf(*old(focus)).parent)),
            old(self)@.refocus_fits(*old(focus), side),
        ensures
            final(self)@ == old(self)@.refocused(*old(focus), side),
            *final(focus) == old(self)@.refocused_leaf(*old(focus), side),
            final(self)@.wf(),
            final(focus).0 < final(self)@.leaves.len(),
    {
        let ghost before = self@;
        let ghost n = self@.splits.len();
        let ghost rank = choose|rank: Seq<nat>| self@.ranked(rank);
        let l: LeafIdx = *focus;
        let from: Rect = self.get_leaf(l).rect;
        let mut curr: SplitIdx = self.get_leaf(l).parent;
        let ghost mut depth: nat = n;
        proof {
            tree_layout::lemma_linked_sound(self@, -1);
        }
        loop
            invariant
                self@ == before,
                before == old(self)@,
                *focus == l,
                l == *old(focus),
                before.wf(),
                before.sound(),
                before.ranked(rank),
                before.splits.len() == n,
                l.0 < before.leaves.len(),
                before.live(NodeIdx::Split(curr)),
                depth + rank[curr.0 as int] >= n,
                side is Right ==> from.x + from.w <= u16::MAX,
                side is Down ==> from.y + from.h <= u16::MAX,
                before.seek_fits(curr, side, from, depth),
                before.neighbour(l, side) == before.seek(curr, side, from, depth),
            decreases depth,
        {
            assert(rank[curr.0 as int] < rank.len());
            match self.nearest(curr, side, from) {
                Some(i) => {
                    let target: NodeIdx = self.get_split(curr).children[i];
                    proof {
                        tree_pruning::lemma_with_focus_linked(before, -1, curr, i as int);
                    }
                    self.get_mut_split(curr).focus = i;
                    proof {
                        assert(self@ == before.with_focus(curr, i as int));
                        assert(self@.ranked(rank));
                        tree_layout::lemma_linked_sound(self@, -1);
                        assert(self@.has(self@.splits[curr.0 as int].children[i as int]));
                        if let NodeIdx::Split(c) = target {
                            assert(self@.splits[curr.0 as int].children[i as int] == target);
                            assert(rank[c.0 as int] < rank.len());
                            tree_pruning::lemma_follow_reaches(self@, -1, rank, c, n);
                        }
                        tree_pruning::lemma_follow_in(self@, target, n);
                    }
                    *focus = self.follow_focus(target);
                    return ;
                },
                None => {
                    match self.get_split(curr).parent {
                        Some(p) => {
                            proof {
                                lemma_parent_live(before, rank, curr, p);
                                depth = (depth - 1) as nat;
                            }
                            curr = p;
                        },
                        None => {
                            return ;
                        },
                    }
                },
            }
        }
    }

    pub fn focus_right(&mut self, focus: &mut LeafIdx)
        requires
            old(self)@.wf(),
            old(focus).0 < old(self)@.leaves.len(),
            old(self)@.live(NodeIdx::Split(old(self)@.leaf(*old(focus)).parent)),
            old(self)@.refocus_fits(*old(focus), Side::Right),
        ensures
            final(self)@ == old(self)@.refocused(*old(focus), Side::Right),
            *final(focus) == old(self)@.refocused_leaf(*old(focus), Side::Right),
            final(self)@.wf(),
            final(focus).0 < final(self)@.leaves.len(),
    {
        self.focus_towards(Side::Right, focus);
    }

    pub fn focus_left(&mut self, focus: &mut LeafIdx)
        requires
            old(self)@.wf(),
            old(focus).0 < old(self)@.leaves.len(),
            old(self)@.live(NodeIdx::Split(old(self)@.leaf(*old(focus)).parent)),
            old(self)@.refocus_fits(*old(focus), Side::Left),
        ensures
            final(self)@ == old(self)@.refocused(*old(focus), Side::Left),
            *final(focus) == old(self)@.refocused_leaf(*old(focus), Side::Left),
            final(self)@.wf(),
            final(focus).0 < final(self)@.leaves.len(),
    {
        self.focus_towards(Side::Left, focus);
    }

    pub fn focus_up(&mut self, focus: &mut LeafIdx)
        requires
            old(self)@.wf(),
            old(focus).0 < old(self)@.leaves.len(),
            old(self)@.live(NodeIdx::Split(old(self)@.leaf(*old(focus)).parent)),
            old(self)@.refocus_fits(*old(focus), Side::Up),
        ensures
            final(self)@ == old(self)@.refocused(*old(focus), Side::Up),
            *final(focus) == old(self)@.refocused_leaf(*old(focus), Side::Up),
            final(self)@.wf(),
            final(focus).0 < final(self)@.leaves.len(),
    {
        self.focus_towards(Side::Up, focus);
    }

    pub fn focus_down(&mut self, focus: &mut LeafIdx)
        requires
            old(self)@.wf(),
            old(focus).0 < old(self)@.leaves.len(),
            old(self)@.live(NodeIdx::Split(old(self)@.leaf(*old(focus)).parent)),
            old(self)@.refocus_fits(*old(focus), Side::Down),
        ensures
            final(self)@ == old(self)@.refocused(*old(focus), Side::Down),
            *final(focus) == old(self)@.refocused_leaf(*old(focus), Side::Down),
            final(self)@.wf(),
            final(focus).0 < final(self)@.leaves.len(),
    {
        self.focus_towards(Side::Down, focus);
    }
}

fn copy_indices(v: &Vec<usize>) -> (w: Vec<usize>)
    ensures
        w@ == v@,
{
    let mut w: Vec<usize> = Vec::new();
    let mut i: usize = 0;
    while i < v.len()
        invariant
            i <= v@.len(),
            w@ =~= v@.take(i as int),
        decreases v@.len() - i,
    {
        w.push(v[i]);
        i = i + 1;
    }
    assert(w@ =~= v@);
    w
}

impl Component {
    /// The same content again.
    pub fn copy(&self) -> (res: Component)
        ensures
            res@ == self@,
    {
        match self {
            Component::View(v) => Component::View(*v),
            Component::CmdLine(_) => Component::CmdLine(Dummy()),
            Component::AutoComplete(ac) => Component::AutoComplete(list_cmds::copy_list(ac)),
            Component::BufferList => Component::BufferList,
        }
    }
}

impl Nodes {
    pub fn split_count(&self) -> (n: usize)
        ensures
            n == self@.splits.len(),
    {
        self.splits.len()
    }

    pub fn leaf_count(&self) -> (n: usize)
        ensures
            n == self@.leaves.len(),
    {
        self.leaves.len()
    }

    fn copy_splits(&self) -> (res: Vec<Split>)
        ensures
            split_views(res@) == split_views(self.splits@),
    {
        let mut res: Vec<Split> = Vec::new();
        let mut i: usize = 0;
        while i < self.splits.len()
            invariant
                i <= self.splits@.len(),
                res@.len() == i,
                forall|k: int| 0 <= k < i ==> (#[trigger] res@[k])@ == self.splits@[k]@,
            decreases self.splits@.len() - i,
        {
            let s: &Split = &self.splits[i];
            let children: Vec<NodeIdx> = self.copy_children(SplitIdx(i));
            res.push(
                Split {
                    parent: s.parent,
                    children,
                    direction: s.direction,
                    focus: s.focus,
                    rect: s.rect,
                    constraints: s.constraints.copy(),
                    anchors: s.anchors.copy(),
                },
            );
            i = i + 1;
        }
        assert(split_views(res@) =~= split_views(self.splits@));
        res
    }

    fn copy_leaves(&self) -> (res: Vec<Leaf>)
        ensures
            leaf_views(res@) == leaf_views(self.leaves@),
    {
        let mut res: Vec<Leaf> = Vec::new();
        let mut i: usize = 0;
        while i < self.leaves.len()
            invariant
                i <= self.leaves@.len(),
                res@.len() == i,
                forall|k: int| 0 <= k < i ==> (#[trigger] res@[k])@ == self.leaves@[k]@,
            decreases self.leaves@.len() - i,
        {
            let l: &Leaf = &self.leaves[i];
            res.push(
                Leaf {
                    parent: l.parent,
                    rect: l.rect,
                    constraints: l.constraints.copy(),
                    anchors: l.anchors.copy(),
                    comp: l.comp.copy(),
                },
            );
            i = i + 1;
        }
        assert(leaf_views(res@) =~= leaf_views(self.leaves@));
        res
    }

    /// The same tree again, to see what would become of it.
    pub fn copy(&self) -> (res: Nodes)
        ensures
            res@ == self@,
    {
        let mut roots: Vec<SplitIdx> = Vec::new();
        let mut i: usize = 0;
        while i < self.roots.len()
            invariant
                i <= self.roots@.len(),
                roots@ =~= self.roots@.take(i as int),
            decreases self.roots@.len() - i,
        {
            roots.push(self.roots[i]);
            i = i + 1;
        }
        assert(roots@ =~= self.roots@);
        Nodes {
            roots,
            splits: self.copy_splits(),
            leaves: self.copy_leaves(),
            free_splits: copy_indices(&self.free_splits),
            free_leaves: copy_indices(&self.free_leaves),
        }
    }

    /// Whether a split is there and not free.
    pub fn is_in_use(&self, sidx: SplitIdx) -> (res: bool)
        ensures
            res == self@.live(NodeIdx::Split(sidx)),
    {
        if sidx.0 >= self.splits.len() {
            return false;
        }
        let mut i: usize = 0;
        while i < self.free_splits.len()
            invariant
                i <= self.free_splits@.len(),
                sidx.0 < self.splits@.len(),
                forall|k: int| 0 <= k < i ==> #[trigger] self.free_splits@[k] != sidx.0,
            decreases self.free_splits@.len() - i,
        {
            if self.free_splits[i] == sidx.0 {
                assert(self@.free_splits[i as int] == sidx.0);
                return false;
            }
            i = i + 1;
        }
        true
    }

    /// Whether the edges of the children that are looked at on the way to the
    /// nearest one are within `u16`.
    fn edges_are_in(&self, sidx: SplitIdx, side: Side, from: Rect) -> (res: bool)
        requires
            self@.sound(),
            sidx.0 < self@.splits.len(),
            side is Left || side is Up,
        ensures
            res == self@.beyond_fits(self@.split(sidx).children, side, from),
    {
        let children: &Vec<NodeIdx> = &self.get_split(sidx).children;
        assert forall|k: int| 0 <= k < children@.len() implies self@.has(
            #[trigger] children@[k],
        ) by {
            assert(self@.has(self@.splits[sidx.0 as int].children[k]));
        }
        let mut i: usize = children.len();
        assert(children@.take(i as int) =~= children@);
        while i > 0
            invariant
                i <= children@.len(),
                children@ == self@.split(sidx).children,
                self@.has_all(children@),
                side is Left || side is Up,
                self@.beyond_fits(children@, side, from) == self@.beyond_fits(
                    children@.take(i as int),
                    side,
                    from,
                ),
            decreases i,
        {
            proof {
                let now = children@.take(i as int);
                assert(now.drop_last() =~= children@.take(i - 1));
                assert(now.last() == children@[i - 1]);
                assert(self@.has(children@[i - 1]));
            }
            i = i - 1;
            let r: Rect = self.get_rect(children[i]);
            let fits: bool = match side {
                Side::Left => r.x <= u16::MAX - r.w,
                _ => r.y <= u16::MAX - r.h,
            };
            if !fits {
                return false;
            }
            if self.is_beyond(children[i], side, from) {
                return true;
            }
        }
        true
    }

    /// Whether the focus can move from a leaf to one of its sides.
    pub fn may_refocus(&self, l: LeafIdx, side: Side) -> (res: bool)
        requires
            self@.linked(-1),
            l.0 < self@.leaves.len(),
        ensures
            res == (self@.live(NodeIdx::Split(self@.leaf(l).parent)) && self@.refocus_fits(l, side)),
    {
        let ghost n = self@.splits.len();
        let ghost rank = choose|rank: Seq<nat>| self@.ranked(rank);
        let from: Rect = self.get_leaf(l).rect;
        let mut curr: SplitIdx = self.get_leaf(l).parent;
        if !self.is_in_use(curr) {
            return false;
        }
        let fits: bool = match side {
            Side::Right => from.x <= u16::MAX - from.w,
            Side::Down => from.y <= u16::MAX - from.h,
            _ => true,
        };
        if !fits {
            return false;
        }
        let backward: bool = match side {
            Side::Left => true,
            Side::Up => true,
            _ => false,
        };
        let ghost mut depth: nat = n;
        proof {
            tree_layout::lemma_linked_sound(self@, -1);
        }
        loop
            invariant
                self@.linked(-1),
                self@.sound(),
                self@.ranked(rank),
                self@.splits.len() == n,
                self@.live(NodeIdx::Split(self@.leaf(l).parent)),
                self@.live(NodeIdx::Split(curr)),
                depth + rank[curr.0 as int] >= n,
                side is Right ==> from.x + from.w <= u16::MAX,
                side is Down ==> from.y + from.h <= u16::MAX,
                backward == (side is Left || side is Up),
                self@.refocus_fits(l, side) == self@.seek_fits(curr, side, from, depth),
            decreases depth,
        {
            assert(rank[curr.0 as int] < rank.len());
            if backward && !self.edges_are_in(curr, side, from) {
                return false;
            }
            if self.nearest(curr, side, from).is_some() {
                return true;
            }
            match self.get_split(curr).parent {
                Some(p) => {
                    proof {
                        lemma_parent_live(self@, rank, curr, p);
                        depth = (depth - 1) as nat;
                    }
                    curr = p;
                },
                None => {
                    return true;
                },
            }
        }
    }
}

proof fn lemma_prefix_fits(m: NodesView, nodes: Seq<NodeIdx>, depth: nat, k: int)
    requires
        m.relayout_each_fits(nodes, depth),
        0 <= k <= nodes.len(),
    ensures
        m.relayout_each_fits(nodes.take(k), depth),
    decreases nodes.len(),
{
    if k == nodes.len() {
        assert(nodes.take(k) =~= nodes);
    } else {
        lemma_prefix_fits(m, nodes.drop_last(), depth, k);
        assert(nodes.drop_last().take(k) =~= nodes.take(k));
    }
}

proof fn lemma_resized_prefix_fits(
    m: NodesView,
    roots: Seq<SplitIdx>,
    width: u16,
    height: u16,
    k: int,
)
    requires
        m.resized_each_fits(roots, width, height),
        0 <= k <= roots.len(),
    ensures
        m.resized_each_fits(roots.take(k), width, height),
    decreases roots.len(),
{
    if k == roots.len() {
        assert(roots.take(k) =~= roots);
    } else {
        lemma_resized_prefix_fits(m, roots.drop_last(), width, height, k);
        assert(roots.drop_last().take(k) =~= roots.take(k));
    }
}

proof fn lemma_first_beyond_extends(
    m: NodesView,
    nodes: Seq<NodeIdx>,
    side: Side,
    from: Rect,
    k: int,
)
    requires
        0 <= k <= nodes.len(),
        m.first_beyond(nodes.take(k), side, from) is Some,
    ensures
        m.first_beyond(nodes, side, from) == m.first_beyond(nodes.take(k), side, from),
    decreases nodes.len(),
{
    if k == nodes.len() {
        assert(nodes.take(k) =~= nodes);
    } else {
        assert(nodes.drop_last().take(k) =~= nodes.take(k));
        lemma_first_beyond_extends(m, nodes.drop_last(), side, from, k);
    }
}

/// The parent of a live split is live and ranks higher.
pub proof fn lemma_parent_live(m: NodesView, rank: Seq<nat>, s: SplitIdx, p: SplitIdx)
    requires
        m.linked(-1),
        m.ranked(rank),
        m.live(NodeIdx::Split(s)),
        m.split(s).parent == Some(p),
    ensures
        m.live(NodeIdx::Split(p)),
        rank[s.0 as int] < rank[p.0 as int],
{
    let x = NodeIdx::Split(s);
    assert(m.parent_linked(s.0 as int));
    let c = m.split(p).children;
    let k = choose|k: int| 0 <= k < c.len() && c[k] == x;
    assert(m.splits[p.0 as int].children[k] == x);
    if m.free_splits.contains(p.0) {
        let j = choose|j: int| 0 <= j < m.free_splits.len() && m.free_splits[j] == p.0;
        assert(m.splits[m.free_splits[j] as int].children.len() == 0);
    }
}

proof fn lemma_focus_step(focus: int, count: int)
    requires
        0 <= focus,
        0 < count,
    ensures
        (focus + count - 1) % count == (if focus % count == 0 {
            count - 1
        } else {
            focus % count - 1
        }),
{
    let q = focus / count;
    let r = focus % count;
    vstd::arithmetic::div_mod::lemma_fundamental_div_mod(focus, count);
    vstd::arithmetic::div_mod::lemma_mod_bound(focus, count);
    if r == 0 {
        vstd::arithmetic::div_mod::lemma_fundamental_div_mod_converse(
            focus + count - 1,
            count,
            q,
            count - 1,
        );
    } else {
        assert(count * (q + 1) == count * q + count) by (nonlinear_arith);
        vstd::arithmetic::div_mod::lemma_fundamental_div_mod_converse(
            focus + count - 1,
            count,
            q + 1,
            r - 1,
        );
    }
}

proof fn lemma_split_views_update(s: Seq<Split>, i: int)
    requires
        0 <= i < s.len(),
    ensures
        forall|v: Split|
            split_views(#[trigger] s.update(i, v)) == split_views(s).update(i, v@),
{
    assert forall|v: Split|
        split_views(#[trigger] s.update(i, v)) == split_views(s).update(i, v@) by {
        assert(split_views(s.update(i, v)) =~= split_views(s).update(i, v@));
    }
}

proof fn lemma_split_views_push(s: Seq<Split>, v: Split)
    ensures
        split_views(s.push(v)) == split_views(s).push(v@),
{
    assert(split_views(s.push(v)) =~= split_views(s).push(v@));
}

proof fn lemma_leaf_views_push(s: Seq<Leaf>, v: Leaf)
    ensures
        leaf_views(s.push(v)) == leaf_views(s).push(v@),
{
    assert(leaf_views(s.push(v)) =~= leaf_views(s).push(v@));
}

proof fn lemma_leaf_views_update(s: Seq<Leaf>, i: int)
    requires
        0 <= i < s.len(),
    ensures
        forall|v: Leaf| leaf_views(#[trigger] s.update(i, v)) == leaf_views(s).update(i, v@),
{
    assert forall|v: Leaf| leaf_views(#[trigger] s.update(i, v)) == leaf_views(s).update(
        i,
        v@,
    ) by {
        assert(leaf_views(s.update(i, v)) =~= leaf_views(s).update(i, v@));
    }
}

} // verus!
