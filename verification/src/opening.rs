//! How the editor starts, what it tells, and what of it is drawn.
use vstd::prelude::*;
use crate::auto_complete::AutoCompleteView;
use crate::buffers::{BufferIdx, Found, IS_SCRATCH, NEW_FILE, NON_NAVIGATABLE, READ_ONLY};
use crate::commands;
use crate::commands::CmdSpecView;
use crate::divide;
use crate::editor::EditorView;
use crate::errors::EditorErrView;
use crate::filing;
use crate::layout;
use crate::layout::{
    AnchorsView, ConstraintsView, Dimension, Direction, Position, Rect,
};
use crate::orderly;
use crate::paint;
use crate::scene::Scene;
use crate::screen::ScreenView;
use crate::settled;
use crate::shares;
use crate::start;
use crate::start::StartFile;
use crate::step;
use crate::step::OutcomeView;
use crate::strings;
use crate::tame;
use crate::tree::{ComponentView, LeafIdx, NodeIdx, NodesView, SplitIdx};
use crate::tree_growth;
use crate::view_cmds;
use crate::views::ViewIdx;

verus! {

// ---- the start

/// The editor starts with one view, in normal mode and at the start of its
/// buffer, with nothing yanked and an empty command line.
pub proof fn law_start(width: u16, height: u16, cwd: Seq<char>, file: Option<StartFile>)
    ensures
        ({
            let e = EditorView::started(width, height, cwd, file);
            let v = e.scene.views[0];
            &&& e.clipboard is None
            &&& e.scene.cwd == cwd
            &&& e.scene.line.input.len() == 0
            &&& e.scene.line.mode is Insert
            &&& !e.scene.line.error
            &&& e.scene.views.len() == 1
            &&& v.cursor == 0 && v.off == 0 && v.prefered_x == 0
            &&& v.mode is Normal
            &&& v.selection is None
            &&& v.buf.idx < e.scene.buffers.data.len()
            &&& e.scene.buffers.free.len() == 0
        }),
{
}

/// The first buffer belongs to no file. A file that the editor starts with is
/// in the second one, and that is the one that is shown.
pub proof fn law_start_buffers(width: u16, height: u16, cwd: Seq<char>, file: Option<StartFile>)
    ensures
        ({
            let s = EditorView::started(width, height, cwd, file).scene;
            let first = s.buffers.data[0];
            let second = s.buffers.data[1];
            &&& first.flags & IS_SCRATCH != 0
            &&& first.file is None
            &&& first.text.len() == 0
            &&& first.undo.len() == 0
            &&& file is None ==> s.buffers.data.len() == 1 && s.views[0].buf.idx == 0
            &&& file matches Some(f) ==> {
                &&& s.buffers.data.len() == 2
                &&& s.views[0].buf.idx == 1
                &&& second.file == Some(f.path@)
                &&& second.undo.len() == 0
                &&& second.redo.len() == 0
                &&& second.flags & IS_SCRATCH == 0
                &&& second.flags & NON_NAVIGATABLE == 0
                &&& match f.found {
                    Found::Content(c, read_only) => second.text == c@ && (second.flags & READ_ONLY
                        != 0) == read_only && second.flags & NEW_FILE == 0,
                    Found::Missing => second.text.len() == 0 && second.flags & NEW_FILE != 0,
                }
                &&& match f.resolved {
                    Some(p) => s.buffers.path_map == Map::<Seq<char>, BufferIdx>::empty().insert(
                        p@,
                        BufferIdx { idx: 1 },
                    ),
                    None => s.buffers.path_map == Map::<Seq<char>, BufferIdx>::empty(),
                }
            }
        }),
{
    filing::lemma_flags();
    assert((2u64 | 4) & 2 != 0) by (bit_vector);
}

/// A root does not stand below any split, nor does a leaf of a root below
/// another root.
proof fn lemma_apart(m: NodesView, n: NodeIdx, s: SplitIdx)
    requires
        m.parent_of(n) matches Some(p) ==> p != s && m.split(p).parent is None,
    ensures
        !m.stands_below(n, s),
{
    assert forall|steps: nat| !m.climbs(n, s, steps) by {
        if m.climbs(n, s, steps) {
            let p = m.parent_of(n)->0;
            assert(m.climbs(NodeIdx::Split(p), s, (steps - 1) as nat));
            assert(m.parent_of(NodeIdx::Split(p)) is None);
        }
    }
}

proof fn lemma_three_roots(width: u16, height: u16)
    requires
        height > 0,
    ensures
        ({
            let m = NodesView::three_roots(width, height);
            &&& m.wf()
            &&& m.orderly()
            &&& m.cornered()
            &&& m.splits.len() == 3
            &&& m.leaves.len() == 0
            &&& m.free_leaves.len() == 0
            &&& m.free_splits.len() == 0
            &&& m.roots == seq![SplitIdx(0), SplitIdx(1), SplitIdx(2)]
            &&& m.splits[0].rect == (Rect { x: 0, y: 0, h: (height - 1) as u16, w: width })
            &&& m.splits[1].rect == (Rect { x: 0, y: 0, h: height, w: width })
            &&& m.splits[0].direction is Vertical
            &&& m.splits[1].direction is Horizontal
            &&& forall|i: int|
                0 <= i < 3 ==> (#[trigger] m.splits[i]).parent is None && m.splits[i].children.len()
                    == 0
        }),
{
    let (c, a) = (ConstraintsView::free(), AnchorsView::free());
    start::lemma_empty_tree();
    start::lemma_asks();
    let e = NodesView::empty();
    let t = start::text_root_constraints();
    orderly::law_rooted(e, t, width, height, Direction::Vertical);
    let one = e.rooted(t, a, width, height, Direction::Vertical);
    orderly::law_rooted(one, c, width, height, Direction::Horizontal);
    let two = one.rooted(c, a, width, height, Direction::Horizontal);
    orderly::law_rooted(two, c, width, height, Direction::Vertical);
    let m = NodesView::three_roots(width, height);
    assert(m.roots =~= seq![SplitIdx(0), SplitIdx(1), SplitIdx(2)]);
    let dims = t.max_height->0;
    reveal_with_fuel(layout::extent, 4);
    assert(dims.drop_last() =~= seq![Dimension::AddRelative(1)]);
    assert(dims.drop_last().drop_last() =~= Seq::<Dimension>::empty());
    assert(height as int / 1 == height);
}

proof fn lemma_first_view(width: u16, height: u16)
    requires
        width > 0,
        height > 0,
    ensures
        ({
            let m = NodesView::three_roots(width, height).grown(
                ComponentView::View(ViewIdx(0)),
                SplitIdx(0),
                ConstraintsView::free(),
                AnchorsView::free(),
            );
            &&& m.wf()
            &&& m.orderly()
            &&& m.splits.len() == 3
            &&& m.leaves.len() == 1
            &&& m.free_leaves.len() == 0
            &&& m.live(NodeIdx::Split(SplitIdx(1)))
            &&& m.leaves[0].comp == ComponentView::View(ViewIdx(0))
            &&& m.leaves[0].parent == SplitIdx(0)
            &&& m.leaves[0].rect == (Rect { x: 0, y: 0, h: (height - 1) as u16, w: width })
            &&& m.splits[0].parent is None
            &&& m.splits[1].parent is None
            &&& m.splits[1].children.len() == 0
            &&& m.splits[1].direction is Horizontal
            &&& m.splits[1].rect == (Rect { x: 0, y: 0, h: height, w: width })
        }),
{
    let (c, a) = (ConstraintsView::free(), AnchorsView::free());
    let v = ComponentView::View(ViewIdx(0));
    let root = SplitIdx(0);
    lemma_three_roots(width, height);
    let three = NodesView::three_roots(width, height);
    assert(three.live(NodeIdx::Split(three.roots[0])));
    assert(three.live(NodeIdx::Split(three.roots[1])));
    orderly::lemma_free_tame();
    orderly::law_grown(three, v, root, c, a);
    tree_growth::lemma_planted_linked(three, -1, v, root, c, a);
    let p = three.planted(v, root, c, a);
    let m = three.grown(v, root, c, a);
    assert(p.splits[0].children =~= seq![NodeIdx::Leaf(LeafIdx(0))]);
    shares::law_in_line(p, -1, root, 0);
    shares::law_split_evenly(p, -1, root, 0);
    assert(width as int / 1 == width);
    assert(p.has(NodeIdx::Split(SplitIdx(1))));
    assert(p.splits[1] == three.splits[1]);
    lemma_apart(p, NodeIdx::Split(SplitIdx(1)), root);
    settled::law_only_below_moves(p, -1, root, NodeIdx::Split(SplitIdx(1)));
    assert(m.rect_of(NodeIdx::Leaf(LeafIdx(0))) == m.leaves[0].rect);
    assert(m.rect_of(NodeIdx::Split(SplitIdx(1))) == m.splits[1].rect);
    assert(m.splits[0].parent is None);
}

/// At the start the view takes all rows of the screen but the last, which the
/// command line takes.
pub proof fn law_start_screen(width: u16, height: u16, cwd: Seq<char>, file: Option<StartFile>)
    requires
        width > 0,
        height > 0,
    ensures
        ({
            let m = EditorView::started(width, height, cwd, file).scene.nodes;
            let e = EditorView::started(width, height, cwd, file);
            &&& e.scene.focus == LeafIdx(0)
            &&& m.leaves.len() == 2
            &&& m.leaves[0].comp == ComponentView::View(ViewIdx(0))
            &&& m.leaves[0].rect == (Rect { x: 0, y: 0, h: (height - 1) as u16, w: width })
            &&& m.leaves[1].comp is CmdLine
            &&& m.leaves[1].rect == (Rect { x: 0, y: (height - 1) as u16, h: 1, w: width })
        }),
{
    let (c, a) = (start::cmd_line_constraints(), start::cmd_line_anchors());
    let comp = ComponentView::CmdLine;
    let root = SplitIdx(1);
    let line = NodeIdx::Leaf(LeafIdx(1));
    lemma_first_view(width, height);
    let one = NodesView::three_roots(width, height).grown(
        ComponentView::View(ViewIdx(0)),
        SplitIdx(0),
        ConstraintsView::free(),
        AnchorsView::free(),
    );
    start::lemma_asks();
    orderly::law_grown(one, comp, root, c, a);
    tree_growth::lemma_planted_linked(one, -1, comp, root, c, a);
    let p = one.planted(comp, root, c, a);
    let m = one.grown(comp, root, c, a);
    assert(p.splits[1].children =~= seq![line]);
    assert(p.leaves[0] == one.leaves[0]);
    lemma_apart(p, NodeIdx::Leaf(LeafIdx(0)), root);
    settled::law_only_below_moves(p, -1, root, NodeIdx::Leaf(LeafIdx(0)));
    assert(m.rect_of(NodeIdx::Leaf(LeafIdx(0))) == m.leaves[0].rect);
    assert(m.rect_of(line) == m.leaves[1].rect);
    shares::lemma_child_rects(p, -1, root);
    assert(p.split(root).children[0] == line);
    lemma_last_row(p, root, height);
}

/// A split that gives its one child a row at its end.
proof fn lemma_last_row(p: NodesView, s: SplitIdx, height: u16)
    requires
        p.division_fits(s),
        p.split(s).children.len() == 1,
        p.split(s).direction is Horizontal,
        p.split(s).rect.x == 0,
        p.split(s).rect.y == 0,
        p.split(s).rect.h == height,
        height > 0,
        p.constraints_of(p.split(s).children[0]) == start::cmd_line_constraints(),
        p.anchors_of(p.split(s).children[0]) == start::cmd_line_anchors(),
    ensures
        p.child_rects(s)[0] == (Rect {
            x: 0,
            y: (height - 1) as u16,
            h: 1,
            w: p.split(s).rect.w,
        }),
{
    let v = p.split(s);
    let mins = p.least_sizes(s);
    let maxes = p.greatest_sizes(s);
    let slots = divide::divided(mins, maxes, height as int);
    let dims = start::cmd_line_constraints().max_height->0;
    let terms = start::cmd_line_anchors().y->0;
    reveal_with_fuel(layout::extent, 3);
    reveal_with_fuel(layout::offset, 4);
    assert(dims.drop_last() =~= Seq::<Dimension>::empty());
    assert(terms.drop_last() =~= seq![Position::AddRelative(1)]);
    assert(terms.drop_last().drop_last() =~= Seq::<Position>::empty());
    assert(height as int / 1 == height);
    assert(layout::offset(terms, height as int) == height - 1);
    assert(mins[0] is None);
    assert(maxes[0] == Some(1int));
    assert(tame::no_least(mins));
    shares::law_sizes_bounded(mins, maxes, height as int, 0);
    shares::law_nothing_held_back(mins, maxes, height as int);
    assert(tame::total(slots, 1) == tame::total(slots, 0) + slots[0].size);
    assert(slots[0].size == 1);
    shares::lemma_seen(p, s, 0);
    assert(p.anchors_across(s)[0] is None);
    assert(p.anchors_along(s)[0] == Some(height - 1));
}

// ---- what is told

/// Every message is shown in the command line, in place of what was typed, and
/// the focus goes back to where the tree leads; nothing else changes.
pub proof fn law_told(e: EditorView, cause: EditorErrView)
    ensures
        ({
            let t = e.told(cause);
            let m = step::message_of(cause);
            &&& cause is Quit || cause is Io ==> t == e
            &&& !(cause is Quit || cause is Io) ==> {
                &&& t.scene.focus == e.scene.tree_focus()
                &&& t.scene.line.input == (match m {
                    Some(s) => s,
                    None => e.scene.line.input,
                })
                &&& !t.scene.line.error
                &&& t.scene.line.cursor == e.scene.line.cursor
                &&& t.scene.line.mode == e.scene.line.mode
                &&& t.scene.line.selection == e.scene.line.selection
                &&& t.scene.line.last_view == e.scene.line.last_view
                &&& t.scene.views == e.scene.views
                &&& t.scene.buffers == e.scene.buffers
                &&& t.scene.nodes == e.scene.nodes
                &&& t.scene.cwd == e.scene.cwd
                &&& t.clipboard == e.clipboard
            }
        }),
{
}

/// What is told of each cause: a message as it is, and the number of the buffer
/// that stands in the way.
pub proof fn law_messages(b: BufferIdx, s: Seq<char>)
    ensures
        step::message_of(EditorErrView::Msg(s)) == Some(s),
        step::message_of(EditorErrView::Dirty(b)) == Some(
            "buffer:"@ + strings::decimal(b.idx as nat) + " is dirty"@,
        ),
        step::message_of(EditorErrView::ReadOnly(b)) == Some(
            "buffer:"@ + strings::decimal(b.idx as nat) + "is read only"@,
        ),
        step::message_of(EditorErrView::InvalidBuffer) == Some("index is invalid"@),
        step::message_of(EditorErrView::Log(s)) is None,
{
}

/// The editor ends when it is told to quit, and when reading or writing fails,
/// which it then says; nothing else ends it.
pub proof fn law_ends(cause: EditorErrView)
    ensures
        step::outcome_of(cause) is Stop <==> cause is Quit || cause is Io,
        cause is Quit ==> step::outcome_of(cause) == OutcomeView::Stop(None),
        cause matches EditorErrView::Io(s) ==> step::outcome_of(cause) == OutcomeView::Stop(
            Some("IO error: "@ + s),
        ),
        cause matches EditorErrView::Log(s) ==> step::outcome_of(cause) == OutcomeView::Log(s),
{
}

// ---- entering the command line

/// The command line is entered empty, with a list of all commands that has the
/// focus; none is chosen.
pub proof fn law_line_entered(s: Scene, v: ViewIdx, l: LeafIdx)
    ensures
        ({
            let t = s.in_cmd_line(v, l).with_list(None);
            let names = commands::registry().map_values(|c: CmdSpecView| c.name);
            &&& t.line.last_view == (l, v)
            &&& t.line.input.len() == 0
            &&& t.line.cursor == 0
            &&& t.line.mode is Insert
            &&& t.focus == s.nodes.new_leaf_idx()
            &&& t.nodes == s.nodes.grown(
                ComponentView::AutoComplete(
                    AutoCompleteView { selected: None, filtered: names, progress: None },
                ),
                s.nodes.roots[2],
                view_cmds::list_constraints(),
                view_cmds::list_anchors(),
            )
        }),
{
    let none = Seq::<char>::empty();
    assert(strings::words(none).len() == 0);
}

/// The list takes seven rows, and ends one row above the last.
pub proof fn law_list_place(height: int)
    requires
        8 <= height <= u16::MAX,
    ensures
        layout::bounded_extent(view_cmds::list_constraints().max_height, height) == Some(7int),
        layout::option_offset(view_cmds::list_anchors().y, height) == Some(height - 8),
        view_cmds::list_constraints().max_width is None,
        view_cmds::list_anchors().x is None,
{
    reveal_with_fuel(layout::extent, 3);
    reveal_with_fuel(layout::offset, 4);
    let dims = view_cmds::list_constraints().max_height->0;
    let terms = view_cmds::list_anchors().y->0;
    assert(dims.drop_last() =~= Seq::<Dimension>::empty());
    assert(terms.drop_last() =~= seq![Position::AddRelative(1)]);
    assert(terms.drop_last().drop_last() =~= Seq::<Position>::empty());
    assert(height / 1 == height);
}

// ---- terms

/// A relative term is the part of the parent that its number says: that many of
/// it go into the parent, and no more. An absolute term is a number of cells.
pub proof fn law_terms(dims: Seq<Dimension>, size: int, n: u16)
    requires
        size >= 0,
        n > 0,
    ensures
        ({
            let so_far = layout::extent(dims, size);
            let part = layout::extent(dims.push(Dimension::AddRelative(n)), size) - so_far;
            &&& part * n <= size < (part + 1) * n
            &&& layout::extent(dims.push(Dimension::AddAbsolute(n)), size) == so_far + n
            &&& so_far >= n ==> layout::extent(dims.push(Dimension::SubAbsolute(n)), size)
                == so_far - n
            &&& so_far < n ==> layout::extent(dims.push(Dimension::SubAbsolute(n)), size) == 0
            &&& so_far >= part ==> layout::extent(dims.push(Dimension::SubRelative(n)), size)
                == so_far - part
            &&& so_far < part ==> layout::extent(dims.push(Dimension::SubRelative(n)), size) == 0
        }),
{
    assert(dims.push(Dimension::AddRelative(n)).drop_last() =~= dims);
    assert(dims.push(Dimension::AddAbsolute(n)).drop_last() =~= dims);
    assert(dims.push(Dimension::SubAbsolute(n)).drop_last() =~= dims);
    assert(dims.push(Dimension::SubRelative(n)).drop_last() =~= dims);
    let part = size / (n as int);
    assert(part * n <= size < (part + 1) * n) by (nonlinear_arith)
        requires
            part == size / (n as int),
            n > 0,
            size >= 0,
    ;
}

/// So it is for positions.
pub proof fn law_position_terms(terms: Seq<Position>, size: int, n: u16)
    requires
        size >= 0,
        n > 0,
    ensures
        ({
            let so_far = layout::offset(terms, size);
            let part = layout::offset(terms.push(Position::AddRelative(n)), size) - so_far;
            &&& part * n <= size < (part + 1) * n
            &&& layout::offset(terms.push(Position::AddAbsolute(n)), size) == so_far + n
            &&& so_far >= n ==> layout::offset(terms.push(Position::SubAbsolute(n)), size)
                == so_far - n
            &&& so_far < n ==> layout::offset(terms.push(Position::SubAbsolute(n)), size) == 0
            &&& so_far >= part ==> layout::offset(terms.push(Position::SubRelative(n)), size)
                == so_far - part
            &&& so_far < part ==> layout::offset(terms.push(Position::SubRelative(n)), size) == 0
        }),
{
    assert(terms.push(Position::AddRelative(n)).drop_last() =~= terms);
    assert(terms.push(Position::AddAbsolute(n)).drop_last() =~= terms);
    assert(terms.push(Position::SubAbsolute(n)).drop_last() =~= terms);
    assert(terms.push(Position::SubRelative(n)).drop_last() =~= terms);
    let part = size / (n as int);
    assert(part * n <= size < (part + 1) * n) by (nonlinear_arith)
        requires
            part == size / (n as int),
            n > 0,
            size >= 0,
    ;
}

// ---- what is drawn

/// A leaf draws what it shows, in its own part of the screen.
pub proof fn law_leaf_drawn(c: ScreenView, s: Scene, l: LeafIdx)
    ensures
        ({
            let leaf = s.nodes.leaves[l.0 as int];
            let drawn = c.with_leaf(s, l);
            match leaf.comp {
                ComponentView::View(v) => {
                    let view = s.views[v.0 as int];
                    drawn == c.with_view(
                        view,
                        s.buffers.data[view.buf.idx as int],
                        leaf.rect,
                        s.cwd,
                    )
                },
                ComponentView::CmdLine => drawn == c.with_cmd_line(s.line, leaf.rect),
                ComponentView::AutoComplete(ac) => drawn == c.with_completions(ac, leaf.rect),
                ComponentView::BufferList => drawn == c,
            }
        }),
{
}

/// A leaf somewhere below a root is drawn.
pub proof fn law_all_drawn(m: NodesView, l: LeafIdx, k: int)
    requires
        m.linked(-1),
        0 <= k < m.roots.len(),
        m.stands_below(NodeIdx::Leaf(l), m.roots[k]),
    ensures
        m.all_in_order().contains(l),
{
    let rank = choose|rank: Seq<nat>| m.ranked(rank);
    let root = m.roots[k];
    let steps = choose|steps: nat| m.climbs(NodeIdx::Leaf(l), root, steps);
    assert(m.live(NodeIdx::Split(root)));
    assert forall|d: nat| high_enough(rank, NodeIdx::Leaf(l), d) implies #[trigger] m.paint_order(
        NodeIdx::Leaf(l),
        d,
    ).contains(l) by {
        assert(m.paint_order(NodeIdx::Leaf(l), d)[0] == l);
    }
    lemma_drawn_above(m, rank, l, NodeIdx::Leaf(l), root, steps);
    assert(rank[root.0 as int] < rank.len());
    assert(high_enough(rank, NodeIdx::Split(root), m.splits.len()));
    assert(m.paint_order(NodeIdx::Split(root), m.splits.len()).contains(l));
    lemma_roots_drawn(m, m.roots, k, l);
}

spec fn high_enough(rank: Seq<nat>, n: NodeIdx, d: nat) -> bool {
    n matches NodeIdx::Split(c) ==> rank[c.0 as int] < d
}

proof fn lemma_drawn_above(
    m: NodesView,
    rank: Seq<nat>,
    l: LeafIdx,
    n: NodeIdx,
    s: SplitIdx,
    steps: nat,
)
    requires
        m.linked(-1),
        m.ranked(rank),
        m.climbs(n, s, steps),
        forall|d: nat| high_enough(rank, n, d) ==> #[trigger] m.paint_order(n, d).contains(l),
    ensures
        forall|d: nat|
            high_enough(rank, NodeIdx::Split(s), d) ==> #[trigger] m.paint_order(
                NodeIdx::Split(s),
                d,
            ).contains(l),
    decreases steps,
{
    let p = m.parent_of(n)->0;
    let v = m.split(p);
    let i = choose|i: int| 0 <= i < v.children.len() && v.children[i] == n;
    assert(m.children_linked(p.0 as int));
    assert(m.splits[p.0 as int].children[i] == n);
    let order = paint::focus_last(v);
    let at = if 0 <= v.focus < v.children.len() {
        if i < v.focus {
            i
        } else if i == v.focus {
            v.children.len() - 1
        } else {
            i - 1
        }
    } else {
        i
    };
    assert(order[at] == n);
    assert forall|d: nat| high_enough(rank, NodeIdx::Split(p), d) implies #[trigger] m.paint_order(
        NodeIdx::Split(p),
        d,
    ).contains(l) by {
        let e = (d - 1) as nat;
        assert(high_enough(rank, n, e));
        assert(m.paint_order(n, e).contains(l));
        lemma_each_drawn(m, order, e, at, l);
    }
    if p != s {
        lemma_drawn_above(m, rank, l, NodeIdx::Split(p), s, (steps - 1) as nat);
    }
}

proof fn lemma_each_drawn(m: NodesView, nodes: Seq<NodeIdx>, d: nat, i: int, l: LeafIdx)
    requires
        0 <= i < nodes.len(),
        m.paint_order(nodes[i], d).contains(l),
    ensures
        m.paint_order_each(nodes, d).contains(l),
    decreases nodes.len(),
{
    let before = m.paint_order_each(nodes.drop_last(), d);
    let last = m.paint_order(nodes.last(), d);
    if i == nodes.len() - 1 {
        let k = choose|k: int| 0 <= k < last.len() && last[k] == l;
        assert((before + last)[before.len() + k] == l);
    } else {
        assert(nodes.drop_last()[i] == nodes[i]);
        lemma_each_drawn(m, nodes.drop_last(), d, i, l);
        let k = choose|k: int| 0 <= k < before.len() && before[k] == l;
        assert((before + last)[k] == l);
    }
}

proof fn lemma_roots_drawn(m: NodesView, roots: Seq<SplitIdx>, i: int, l: LeafIdx)
    requires
        0 <= i < roots.len(),
        m.paint_order(NodeIdx::Split(roots[i]), m.splits.len()).contains(l),
    ensures
        m.paint_order_roots(roots).contains(l),
    decreases roots.len(),
{
    let before = m.paint_order_roots(roots.drop_last());
    let last = m.paint_order(NodeIdx::Split(roots.last()), m.splits.len());
    if i == roots.len() - 1 {
        let k = choose|k: int| 0 <= k < last.len() && last[k] == l;
        assert((before + last)[before.len() + k] == l);
    } else {
        assert(roots.drop_last()[i] == roots[i]);
        lemma_roots_drawn(m, roots.drop_last(), i, l);
        let k = choose|k: int| 0 <= k < before.len() && before[k] == l;
        assert((before + last)[k] == l);
    }
}

/// Leaves are drawn one after the other, each over those before it.
pub proof fn law_drawn_in_turn(c: ScreenView, s: Scene, a: Seq<LeafIdx>, b: Seq<LeafIdx>)
    ensures
        c.with_leaves(s, a + b) == c.with_leaves(s, a).with_leaves(s, b),
        b.len() == 1 ==> c.with_leaves(s, b) == c.with_leaf(s, b[0]),
        b.len() == 0 ==> c.with_leaves(s, b) == c,
    decreases b.len(),
{
    if b.len() == 0 {
        assert(a + b =~= a);
    } else {
        law_drawn_in_turn(c, s, a, b.drop_last());
        assert((a + b).drop_last() =~= a + b.drop_last());
        if b.len() == 1 {
            assert(c.with_leaves(s, b.drop_last()) == c);
        }
    }
}

/// What the focus leads to below the last root is drawn last of all: a list that
/// is open is not covered.
pub proof fn law_last_root_on_top(m: NodesView)
    requires
        m.wf(),
        m.roots.len() > 0,
        m.split(m.roots.last()).children.len() > 0,
    ensures
        m.all_in_order().len() > 0,
        m.focused(NodeIdx::Split(m.roots.last())) == Some(m.all_in_order().last()),
{
    let r = m.roots.last();
    assert(m.live(NodeIdx::Split(m.roots[m.roots.len() - 1])));
    paint::law_focus_on_top(m, r);
    let before = m.paint_order_roots(m.roots.drop_last());
    let last = m.paint_order(NodeIdx::Split(r), m.splits.len());
    assert((before + last).last() == last.last());
}

// ---- screens of another size

/// A root that asks for nothing takes the whole of a screen, in both
/// directions; one that has a greatest height takes no more than that. The tree
/// is the same but for its rectangles.
pub proof fn law_resized_roots(m: NodesView, width: u16, height: u16, k: int)
    requires
        m.linked(-1),
        0 <= k < m.roots.len(),
        m.split(m.roots[k]).constraints.max_width is None,
        m.split(m.roots[k]).constraints.max_height matches Some(d) ==> layout::extent_fits(
            d,
            height as int,
        ),
    ensures
        ({
            let g = m.resized(width, height);
            let r = m.roots[k];
            let (a, b) = (m.splits[r.0 as int].rect, g.splits[r.0 as int].rect);
            &&& m.moved(g)
            &&& b.x == a.x && b.y == a.y
            &&& b.w == width
            &&& match m.splits[r.0 as int].constraints.max_height {
                None => b.h == height,
                Some(d) => b.h == height && layout::extent(d, height as int) >= height || b.h
                    == layout::extent(d, height as int) && b.h <= height,
            }
        }),
{
    settled::law_no_trace(m, (width, height), width, height);
    if let Some(d) = m.split(m.roots[k]).constraints.max_height {
        layout::lemma_extent_nonneg(d, height as int);
    }
    assert(m.resized(width, height).split(m.roots[k]).rect == settled::root_place(
        m,
        m.roots[k],
        width,
        height,
    ));
}

/// An editor on a screen of another size has the same texts, views and tree.
pub proof fn law_resized_editor(e: EditorView, width: u16, height: u16)
    requires
        e.scene.nodes.linked(-1),
    ensures
        ({
            let r = e.resized(width, height);
            &&& r.clipboard == e.clipboard
            &&& r.scene == Scene { nodes: r.scene.nodes, ..e.scene }
            &&& e.scene.nodes.moved(r.scene.nodes)
        }),
{
    settled::law_no_trace(e.scene.nodes, (width, height), width, height);
}

} // verus!
