//! The whole tree on the screen.
use vstd::prelude::*;
use crate::buffers::Buffers;
use crate::cmd_line;
use crate::cmd_line::{CmdLine, CmdLineView};
use crate::editor::CMDLINE;
use crate::layout::Rect;
use crate::nodes::{Component, Leaf, Nodes};
use crate::scene::Scene;
use crate::screen;
use crate::screen::{DrawOp, ScreenBuffer, ScreenView};
use crate::sketch;
use crate::sketch_line;
use crate::terminal::CursorStyle;
use crate::tree::{ComponentView, LeafIdx, NodeIdx, NodesView, SplitIdx, SplitView};
use crate::views::{TextView, Views};

verus! {

/// The children of a split but for the one in focus, which comes last.
pub open spec fn focus_last(v: SplitView) -> Seq<NodeIdx> {
    if 0 <= v.focus < v.children.len() {
        v.children.remove(v.focus).push(v.children[v.focus])
    } else {
        v.children
    }
}

impl NodesView {
    /// The leaves below a node, down to the given depth, as they are drawn:
    /// what is in focus after the rest.
    pub open spec fn paint_order(self, n: NodeIdx, depth: nat) -> Seq<LeafIdx>
        decreases depth, 0nat,
    {
        match n {
            NodeIdx::Leaf(l) => seq![l],
            NodeIdx::Split(s) => if depth == 0 {
                Seq::empty()
            } else {
                self.paint_order_each(focus_last(self.split(s)), (depth - 1) as nat)
            },
        }
    }

    pub open spec fn paint_order_each(self, nodes: Seq<NodeIdx>, depth: nat) -> Seq<LeafIdx>
        decreases depth, nodes.len() + 1,
    {
        if nodes.len() == 0 {
            Seq::empty()
        } else {
            self.paint_order_each(nodes.drop_last(), depth) + self.paint_order(
                nodes.last(),
                depth,
            )
        }
    }

    /// The leaves below a list of splits.
    pub open spec fn paint_order_roots(self, roots: Seq<SplitIdx>) -> Seq<LeafIdx>
        decreases roots.len(),
    {
        if roots.len() == 0 {
            Seq::empty()
        } else {
            self.paint_order_roots(roots.drop_last()) + self.paint_order(
                NodeIdx::Split(roots.last()),
                self.splits.len(),
            )
        }
    }

    /// All leaves as they are drawn, root after root.
    pub open spec fn all_in_order(self) -> Seq<LeafIdx> {
        self.paint_order_roots(self.roots)
    }
}

impl ScreenView {
    /// What a leaf shows, in its part of the screen.
    pub open spec fn with_leaf(self, s: Scene, l: LeafIdx) -> ScreenView {
        let leaf = s.nodes.leaf(l);
        match leaf.comp {
            ComponentView::View(v) => self.with_view(
                s.view_at(v),
                s.buffer_of(v),
                leaf.rect,
                s.cwd,
            ),
            ComponentView::CmdLine => self.with_cmd_line(s.line, leaf.rect),
            ComponentView::AutoComplete(ac) => self.with_completions(ac, leaf.rect),
            ComponentView::BufferList => self,
        }
    }

    pub open spec fn with_leaves(self, s: Scene, leaves: Seq<LeafIdx>) -> ScreenView
        decreases leaves.len(),
    {
        if leaves.len() == 0 {
            self
        } else {
            self.with_leaves(s, leaves.drop_last()).with_leaf(s, leaves.last())
        }
    }

    /// What a leaf shows fits in its part of the screen.
    pub open spec fn leaf_fits(self, s: Scene, l: LeafIdx) -> bool {
        let leaf = s.nodes.leaf(l);
        match leaf.comp {
            ComponentView::View(v) => s.has_pane(v) && self.view_fits(
                s.view_at(v),
                s.buffer_of(v),
                leaf.rect,
            ),
            ComponentView::CmdLine => sketch_line::cmd_line_fits(s.line, leaf.rect),
            ComponentView::AutoComplete(ac) => sketch_line::completions_fit(ac, leaf.rect),
            ComponentView::BufferList => true,
        }
    }

    pub open spec fn leaves_fit(self, s: Scene, leaves: Seq<LeafIdx>) -> bool
        decreases leaves.len(),
    {
        leaves.len() == 0 || {
            &&& self.leaves_fit(s, leaves.drop_last())
            &&& self.with_leaves(s, leaves.drop_last()).leaf_fits(s, leaves.last())
        }
    }
}

impl Scene {
    /// Where the cursor of a leaf is on screen, and how it looks.
    pub open spec fn cursor_of(self, l: LeafIdx) -> (int, int, CursorStyle) {
        let leaf = self.nodes.leaf(l);
        match leaf.comp {
            ComponentView::View(v) => sketch::view_cursor(
                self.view_at(v),
                self.buffer_of(v).text,
                leaf.rect,
            ),
            ComponentView::CmdLine => line_cursor(self.line, leaf.rect),
            ComponentView::AutoComplete(_) => line_cursor(
                self.line,
                self.nodes.leaf(LeafIdx(CMDLINE)).rect,
            ),
            ComponentView::BufferList => (
                leaf.rect.x as int,
                leaf.rect.y as int,
                CursorStyle::SteadyBlock,
            ),
        }
    }

    pub open spec fn cursor_fits(self, l: LeafIdx) -> bool {
        let leaf = self.nodes.leaf(l);
        &&& l.0 < self.nodes.leaves.len()
        &&& match leaf.comp {
            ComponentView::View(v) => self.has_pane(v) && sketch::view_cursor_fits(
                self.view_at(v),
                self.buffer_of(v).text,
                leaf.rect,
            ),
            ComponentView::AutoComplete(_) => CMDLINE < self.nodes.leaves.len(),
            _ => true,
        }
        &&& self.cursor_of(l).0 <= u16::MAX
    }

    /// The two screens belong together, and everything fits on them.
    pub open spec fn picture_fits(self, before: ScreenView, blank: ScreenView) -> bool {
        &&& before.cells.len() >= blank.cells.len()
        &&& before.width == blank.width
        &&& blank.leaves_fit(self, self.nodes.all_in_order())
        &&& self.cursor_fits(self.focus)
    }
}

/// Where the cursor of the command line is, and how it looks.
pub open spec fn line_cursor(l: CmdLineView, rect: Rect) -> (int, int, CursorStyle) {
    (rect.x + (l.cursor as u16), rect.y as int, cmd_line::style_of(l.mode))
}

/// The steps that draw a picture, and where the cursor goes after them.
pub struct Frame {
    pub ops: Vec<DrawOp>,
    pub x: u16,
    pub y: u16,
    pub style: CursorStyle,
}

impl Frame {
    /// The frame draws the scene over the picture `before`. The new picture is
    /// kept in place of that one, which is cleared for the next.
    pub open spec fn shows(
        self,
        s: Scene,
        before: ScreenView,
        blank: ScreenView,
        kept: ScreenView,
        cleared: ScreenView,
    ) -> bool {
        let (x, y, style) = s.cursor_of(s.focus);
        &&& kept == blank.with_leaves(s, s.nodes.all_in_order())
        &&& cleared == before.cleared()
        &&& screen::op_views(self.ops@) == screen::draw(kept, before)
        &&& self.x == x
        &&& self.y == y
        &&& self.style == style
    }
}

impl Component {
    /// Draws what a leaf shows.
    pub(crate) fn sketch(
        &self,
        rect: &Rect,
        views: &Views,
        buffers: &Buffers,
        cmd_line: &CmdLine,
        target: &mut ScreenBuffer,
        cwd: &String,
        Ghost(s): Ghost<Scene>,
        Ghost(l): Ghost<LeafIdx>,
    )
        requires
            old(target)@.wf(),
            s.views == views@,
            s.buffers == buffers@,
            s.line == cmd_line@,
            s.cwd == cwd@,
            s.nodes.leaf(l).comp == self@,
            s.nodes.leaf(l).rect == *rect,
            old(target)@.leaf_fits(s, l),
        ensures
            final(target)@ == old(target)@.with_leaf(s, l),
            final(target)@.wf(),
            final(target)@.width == old(target)@.width,
            final(target)@.height == old(target)@.height,
    {
        match self {
            Component::View(v) => {
                let view: &TextView = views.get(*v);
                sketch::view_sketch(view, rect, buffers.get(view.buf), target, cwd);
            },
            Component::CmdLine(_) => sketch_line::cmd_line_sketch(cmd_line, rect, target),
            Component::AutoComplete(ac) => sketch_line::auto_complete_sketch(ac, rect, target),
            Component::BufferList => {},
        }
    }

    /// Where the cursor of a leaf is on screen, and how it looks.
    pub(crate) fn cursor_xy(
        &self,
        rect: &Rect,
        views: &Views,
        buffers: &Buffers,
        cmd_line: &CmdLine,
        nodes: &Nodes,
        Ghost(s): Ghost<Scene>,
        Ghost(l): Ghost<LeafIdx>,
    ) -> (res: (u16, u16, CursorStyle))
        requires
            s.views == views@,
            s.buffers == buffers@,
            s.line == cmd_line@,
            s.nodes == nodes@,
            s.nodes.leaf(l).comp == self@,
            s.nodes.leaf(l).rect == *rect,
            s.cursor_fits(l),
        ensures
            res.0 == s.cursor_of(l).0,
            res.1 == s.cursor_of(l).1,
            res.2 == s.cursor_of(l).2,
    {
        match self {
            Component::View(v) => {
                let view: &TextView = views.get(*v);
                sketch::view_cursor_xy(view, rect, buffers.get(view.buf))
            },
            Component::CmdLine(_) => cmd_line.cursor(rect),
            Component::AutoComplete(_) => cmd_line.cursor(&nodes.get_leaf(LeafIdx(CMDLINE)).rect),
            Component::BufferList => (rect.x, rect.y, CursorStyle::SteadyBlock),
        }
    }
}

impl Component {
    /// Whether what a leaf shows fits in its part of the screen.
    fn is_in(
        &self,
        rect: &Rect,
        views: &Views,
        buffers: &Buffers,
        cmd_line: &CmdLine,
        target: &ScreenBuffer,
        Ghost(s): Ghost<Scene>,
        Ghost(l): Ghost<LeafIdx>,
    ) -> (res: bool)
        requires
            s.views == views@,
            s.buffers == buffers@,
            s.line == cmd_line@,
            s.nodes.leaf(l).comp == self@,
            s.nodes.leaf(l).rect == *rect,
        ensures
            res == target@.leaf_fits(s, l),
    {
        match self {
            Component::View(v) => {
                if v.0 >= views.0.len() {
                    return false;
                }
                let view: &TextView = views.get(*v);
                view.buf.idx < buffers.len() && sketch::view_is_in(
                    view,
                    rect,
                    buffers.get(view.buf),
                    target,
                )
            },
            Component::CmdLine(_) => sketch_line::line_is_in(cmd_line, rect),
            Component::AutoComplete(ac) => sketch_line::list_is_in(ac, rect),
            Component::BufferList => true,
        }
    }
}

impl Nodes {
    /// Whether the cursor of a leaf can be placed on the screen.
    fn cursor_is_in(
        &self,
        l: LeafIdx,
        views: &Views,
        buffers: &Buffers,
        cmd_line: &CmdLine,
        Ghost(s): Ghost<Scene>,
    ) -> (res: bool)
        requires
            s.views == views@,
            s.buffers == buffers@,
            s.line == cmd_line@,
            s.nodes == self@,
        ensures
            res == s.cursor_fits(l),
    {
        if l.0 >= self.leaf_count() {
            return false;
        }
        let rect: Rect = self.get_leaf(l).rect;
        let at: u16 = #[verifier::truncate] (cmd_line.cursor as u16);
        match &self.get_leaf(l).comp {
            Component::View(v) => {
                if v.0 >= views.0.len() {
                    return false;
                }
                let view: &TextView = views.get(*v);
                view.buf.idx < buffers.len() && sketch::view_cursor_is_in(
                    view,
                    &rect,
                    buffers.get(view.buf),
                )
            },
            Component::CmdLine(_) => at <= u16::MAX - rect.x,
            Component::AutoComplete(_) => {
                if CMDLINE >= self.leaf_count() {
                    return false;
                }
                at <= u16::MAX - self.get_leaf(LeafIdx(CMDLINE)).rect.x
            },
            Component::BufferList => true,
        }
    }

    fn children_focus_last(&self, sidx: SplitIdx) -> (res: Vec<NodeIdx>)
        requires
            sidx.0 < self@.splits.len(),
        ensures
            res@ == focus_last(self@.split(sidx)),
    {
        let mut children: Vec<NodeIdx> = self.copy_children(sidx);
        let focus: usize = self.get_split(sidx).focus;
        if focus < children.len() {
            let last: NodeIdx = children.remove(focus);
            children.push(last);
        }
        children
    }

    fn push_paint_order(
        &self,
        n: NodeIdx,
        out: &mut Vec<LeafIdx>,
        Ghost(rank): Ghost<Seq<nat>>,
        Ghost(depth): Ghost<nat>,
    )
        requires
            self@.linked(-1),
            self@.ranked(rank),
            self@.has(n),
            n matches NodeIdx::Split(s) ==> rank[s.0 as int] < depth,
        ensures
            final(out)@ == old(out)@ + self@.paint_order(n, depth),
            forall|k: int|
                0 <= k < self@.paint_order(n, depth).len() ==> self@.has(
                    NodeIdx::Leaf(#[trigger] self@.paint_order(n, depth)[k]),
                ),
        decreases depth,
    {
        let ghost m = self@;
        let ghost before = out@;
        match n {
            NodeIdx::Leaf(l) => {
                out.push(l);
                assert(out@ =~= before + seq![l]);
            },
            NodeIdx::Split(s) => {
                let order: Vec<NodeIdx> = self.children_focus_last(s);
                let ghost below = (depth - 1) as nat;
                proof {
                    assert forall|k: int| 0 <= k < order@.len() implies {
                        &&& m.has(#[trigger] order@[k])
                        &&& order@[k] matches NodeIdx::Split(c) ==> rank[c.0 as int] < below
                    } by {
                        let v = m.splits[s.0 as int];
                        assert(m.children_linked(s.0 as int));
                        let j = if 0 <= v.focus < v.children.len() {
                            if k == v.children.len() - 1 {
                                v.focus
                            } else if k < v.focus {
                                k
                            } else {
                                k + 1
                            }
                        } else {
                            k
                        };
                        assert(order@[k] == v.children[j]);
                        assert(m.live(v.children[j]));
                        assert(m.splits[s.0 as int].children[j] == order@[k]);
                    }
                }
                let mut i: usize = 0;
                assert(order@.take(0) =~= Seq::<NodeIdx>::empty());
                assert(before + Seq::<LeafIdx>::empty() =~= before);
                while i < order.len()
                    invariant
                        i <= order@.len(),
                        m == self@,
                        m.linked(-1),
                        m.ranked(rank),
                        depth > 0,
                        below == depth - 1,
                        forall|k: int|
                            0 <= k < order@.len() ==> {
                                &&& m.has(#[trigger] order@[k])
                                &&& order@[k] matches NodeIdx::Split(c) ==> rank[c.0 as int] < below
                            },
                        out@ == before + m.paint_order_each(order@.take(i as int), below),
                        forall|k: int|
                            0 <= k < m.paint_order_each(order@.take(i as int), below).len()
                                ==> m.has(
                                NodeIdx::Leaf(
                                    #[trigger] m.paint_order_each(
                                        order@.take(i as int),
                                        below,
                                    )[k],
                                ),
                            ),
                    decreases order@.len() - i,
                {
                    let c: NodeIdx = order[i];
                    let ghost done = m.paint_order_each(order@.take(i as int), below);
                    let ghost mine = m.paint_order(c, below);
                    self.push_paint_order(c, out, Ghost(rank), Ghost(below));
                    proof {
                        assert(order@.take(i + 1).drop_last() =~= order@.take(i as int));
                        assert(order@.take(i + 1).last() == c);
                        assert((before + done) + mine =~= before + (done + mine));
                        assert forall|k: int| 0 <= k < (done + mine).len() implies m.has(
                            NodeIdx::Leaf(#[trigger] (done + mine)[k]),
                        ) by {
                            if k >= done.len() {
                                assert(m.has(NodeIdx::Leaf(mine[k - done.len()])));
                            } else {
                                assert(m.has(NodeIdx::Leaf(done[k])));
                            }
                        }
                    }
                    i = i + 1;
                }
                assert(order@.take(i as int) =~= order@);
            },
        }
    }

    /// All leaves as they are drawn.
    pub fn leaves_in_order(&self) -> (out: Vec<LeafIdx>)
        requires
            self@.linked(-1),
        ensures
            out@ == self@.all_in_order(),
            forall|k: int| 0 <= k < out@.len() ==> self@.has(NodeIdx::Leaf(#[trigger] out@[k])),
    {
        let ghost m = self@;
        let ghost roots = m.roots;
        let ghost rank = choose|rank: Seq<nat>| m.ranked(rank);
        let n: usize = self.root_count();
        let mut out: Vec<LeafIdx> = Vec::new();
        let mut i: usize = 0;
        assert(roots.take(0) =~= Seq::<SplitIdx>::empty());
        while i < n
            invariant
                i <= n,
                n == roots.len(),
                m == self@,
                roots == m.roots,
                m.linked(-1),
                m.ranked(rank),
                out@ == m.paint_order_roots(roots.take(i as int)),
                forall|k: int|
                    0 <= k < out@.len() ==> m.has(NodeIdx::Leaf(#[trigger] out@[k])),
            decreases n - i,
        {
            let r: SplitIdx = self.get_root(i);
            let ghost before = out@;
            proof {
                assert(m.live(NodeIdx::Split(m.roots[i as int])));
                assert(rank[r.0 as int] < rank.len());
            }
            self.push_paint_order(
                NodeIdx::Split(r),
                &mut out,
                Ghost(rank),
                Ghost(self@.splits.len()),
            );
            proof {
                let mine = m.paint_order(NodeIdx::Split(r), m.splits.len());
                assert(roots.take(i + 1).drop_last() =~= roots.take(i as int));
                assert(roots.take(i + 1).last() == r);
                assert forall|k: int| 0 <= k < out@.len() implies m.has(
                    NodeIdx::Leaf(#[trigger] out@[k]),
                ) by {
                    if k >= before.len() {
                        assert(m.has(NodeIdx::Leaf(mine[k - before.len()])));
                    } else {
                        assert(m.has(NodeIdx::Leaf(before[k])));
                    }
                }
            }
            i = i + 1;
        }
        assert(roots.take(i as int) =~= roots);
        out
    }

    /// Draws the tree, as `paint` does, if all of it fits on the screen.
    pub fn try_paint(
        &self,
        focus: &LeafIdx,
        cmd_line: &CmdLine,
        views: &Views,
        buffers: &Buffers,
        old_screen: &mut ScreenBuffer,
        new_screen: &mut ScreenBuffer,
        cwd: &String,
    ) -> (res: Option<Frame>)
        requires
            self@.linked(-1),
            old(new_screen)@.wf(),
        ensures
            res is Some == Scene::new(*cmd_line, *self, *focus, *views, *buffers, *cwd).picture_fits(
                old(old_screen)@,
                old(new_screen)@,
            ),
            res matches Some(frame) ==> frame.shows(
                Scene::new(*cmd_line, *self, *focus, *views, *buffers, *cwd),
                old(old_screen)@,
                old(new_screen)@,
                final(old_screen)@,
                final(new_screen)@,
            ),
            res is None ==> final(old_screen)@ == old(old_screen)@,
    {
        let ghost s = Scene::new(*cmd_line, *self, *focus, *views, *buffers, *cwd);
        let ghost start = new_screen@;
        if old_screen.width != new_screen.width || old_screen.cells.len() < new_screen.cells.len() {
            return None;
        }
        if !self.cursor_is_in(*focus, views, buffers, cmd_line, Ghost(s)) {
            return None;
        }
        let order: Vec<LeafIdx> = self.leaves_in_order();
        let mut i: usize = 0;
        assert(order@.take(0) =~= Seq::<LeafIdx>::empty());
        while i < order.len()
            invariant
                i <= order@.len(),
                s == Scene::new(*cmd_line, *self, *focus, *views, *buffers, *cwd),
                start == old(new_screen)@,
                old_screen@ == old(old_screen)@,
                order@ == self@.all_in_order(),
                start.leaves_fit(s, order@.take(i as int)),
                forall|k: int|
                    0 <= k < order@.len() ==> self@.has(NodeIdx::Leaf(#[trigger] order@[k])),
                new_screen@.wf(),
                new_screen@.width == start.width,
                new_screen@.height == start.height,
                new_screen@ == start.with_leaves(s, order@.take(i as int)),
            decreases order@.len() - i,
        {
            proof {
                assert(order@.take(i + 1).drop_last() =~= order@.take(i as int));
                assert(order@.take(i + 1).last() == order@[i as int]);
                if start.leaves_fit(s, order@) {
                    lemma_leaves_fit_prefix(start, s, order@, i + 1);
                }
                assert(self@.has(NodeIdx::Leaf(order@[i as int])));
            }
            let l: LeafIdx = order[i];
            let leaf: &Leaf = self.get_leaf(l);
            if !leaf.comp.is_in(
                &leaf.rect,
                views,
                buffers,
                cmd_line,
                new_screen,
                Ghost(s),
                Ghost(l),
            ) {
                return None;
            }
            leaf.comp.sketch(
                &leaf.rect,
                views,
                buffers,
                cmd_line,
                new_screen,
                cwd,
                Ghost(s),
                Ghost(l),
            );
            i = i + 1;
        }
        proof {
            assert(order@.take(i as int) =~= order@);
            assert(new_screen@.cells.len() == start.cells.len());
        }
        let ops: Vec<DrawOp> = new_screen.print(old_screen);
        let leaf: &Leaf = self.get_leaf(*focus);
        let (x, y, style) = leaf.comp.cursor_xy(
            &leaf.rect,
            views,
            buffers,
            cmd_line,
            self,
            Ghost(s),
            Ghost(*focus),
        );
        Some(Frame { ops, x, y, style })
    }

    /// Draws the tree: what has changed since the last picture, and where the
    /// cursor goes.
    pub fn paint(
        &self,
        focus: &LeafIdx,
        cmd_line: &CmdLine,
        views: &Views,
        buffers: &Buffers,
        old_screen: &mut ScreenBuffer,
        new_screen: &mut ScreenBuffer,
        cwd: &String,
    ) -> (frame: Frame)
        requires
            self@.linked(-1),
            old(new_screen)@.wf(),
            Scene::new(*cmd_line, *self, *focus, *views, *buffers, *cwd).picture_fits(
                old(old_screen)@,
                old(new_screen)@,
            ),
        ensures
            frame.shows(
                Scene::new(*cmd_line, *self, *focus, *views, *buffers, *cwd),
                old(old_screen)@,
                old(new_screen)@,
                final(old_screen)@,
                final(new_screen)@,
            ),
    {
        match self.try_paint(focus, cmd_line, views, buffers, old_screen, new_screen, cwd) {
            Some(frame) => frame,
            None => vstd::pervasive::unreached(),
        }
    }
}

proof fn lemma_leaves_fit_prefix(c: ScreenView, s: Scene, leaves: Seq<LeafIdx>, k: int)
    requires
        c.leaves_fit(s, leaves),
        0 <= k <= leaves.len(),
    ensures
        c.leaves_fit(s, leaves.take(k)),
    decreases leaves.len(),
{
    if k == leaves.len() {
        assert(leaves.take(k) =~= leaves);
    } else {
        lemma_leaves_fit_prefix(c, s, leaves.drop_last(), k);
        assert(leaves.drop_last().take(k) =~= leaves.take(k));
    }
}

/// What is in focus below a split is drawn last, over the rest.
pub proof fn law_focus_on_top(m: NodesView, s: SplitIdx)
    requires
        m.wf(),
        s.0 < m.splits.len(),
        m.split(s).children.len() > 0,
    ensures
        ({
            let order = m.paint_order(NodeIdx::Split(s), m.splits.len());
            &&& order.len() > 0
            &&& m.focused(NodeIdx::Split(s)) == Some(order.last())
        }),
{
    let rank = choose|rank: Seq<nat>| m.ranked(rank);
    lemma_focus_on_top(m, rank, NodeIdx::Split(s), m.splits.len());
}

proof fn lemma_focus_on_top(m: NodesView, rank: Seq<nat>, n: NodeIdx, depth: nat)
    requires
        m.wf(),
        m.ranked(rank),
        m.has(n),
        n matches NodeIdx::Split(s) ==> rank[s.0 as int] < depth && m.split(s).children.len() > 0,
    ensures
        m.paint_order(n, depth).len() > 0,
        m.follow(n, depth) == Some(m.paint_order(n, depth).last()),
    decreases depth,
{
    if let NodeIdx::Split(s) = n {
        let v = m.splits[s.0 as int];
        assert(m.children_linked(s.0 as int));
        let top = v.children[v.focus];
        assert(m.live(top));
        assert(m.splits[s.0 as int].children[v.focus] == top);
        lemma_focus_on_top(m, rank, top, (depth - 1) as nat);
        let order = focus_last(v);
        assert(order.last() == top);
        let below = m.paint_order(top, (depth - 1) as nat);
        let rest = m.paint_order_each(order.drop_last(), (depth - 1) as nat);
        assert((rest + below).last() == below.last());
    }
}

} // verus!
