//! Everything that a command works on, as one value, and what each command of
//! the command line makes of it.
use vstd::prelude::*;
use crate::buffers::{
    BufferIdx, BufferView, Buffers, BuffersView, Found, IS_SCRATCH, NON_NAVIGATABLE, READ_ONLY,
    SCRATCH,
};
use crate::cmd_line;
use crate::cmd_line::{CmdLine, CmdLineView};
use crate::commands::{ArgValView, Cmd, CmdValView};
use crate::errors::EditorErrView;
use crate::layout::{AnchorsView, ConstraintsView, Dimension, Direction};
use crate::motion;
use crate::nodes::Nodes;
use crate::requests::{DirFound, Reply, RequestView};
use crate::strings;
use crate::text;
use crate::tree::{
    ComponentView, LeafIdx, NodeIdx, NodesView, SplitIdx, SplitView, ROOT_OVERLAY, ROOT_TEXT_VIEW,
};
use crate::tree_pruning;
use crate::views;
use crate::views::{TextView, ViewIdx, Views};

verus! {

#[verifier::ext_equal]
pub struct Scene {
    pub line: CmdLineView,
    pub nodes: NodesView,
    pub focus: LeafIdx,
    pub views: Seq<TextView>,
    pub buffers: BuffersView,
    pub cwd: Seq<char>,
}

/// A list of numbers, as it is written out.
pub open spec fn joined(s: Seq<int>) -> Seq<char>
    decreases s.len(),
{
    if s.len() == 0 {
        Seq::empty()
    } else if s.len() == 1 {
        strings::decimal(s[0] as nat)
    } else {
        joined(s.drop_last()) + ", "@ + strings::decimal(s.last() as nat)
    }
}

/// The buffers among the first `n` that have edits, but for the one that
/// belongs to no file.
pub open spec fn dirty(data: Seq<BufferView>, n: int) -> Seq<int>
    decreases n,
{
    if n <= 0 {
        Seq::empty()
    } else if data[n - 1].undo.len() > 0 && n - 1 != SCRATCH {
        dirty(data, n - 1).push(n - 1)
    } else {
        dirty(data, n - 1)
    }
}

/// What the list of buffers may take of the screen.
pub open spec fn buffer_list_constraints(buffers: int) -> ConstraintsView {
    ConstraintsView {
        min_height: None,
        max_height: Some(seq![Dimension::AddAbsolute(((buffers as u16) + 2) as u16)]),
        min_width: None,
        max_width: Some(seq![Dimension::AddAbsolute(20)]),
    }
}

/// A list with its last element moved to place `i`.
pub open spec fn swap_removed(s: Seq<NodeIdx>, i: int) -> Seq<NodeIdx> {
    s.update(i, s.last()).drop_last()
}

impl NodesView {
    pub open spec fn with_swap_removed(self, s: SplitIdx, i: int) -> NodesView {
        self.with_children(s, swap_removed(self.split(s).children, i))
    }

    /// The leaf at place `i` of `parent` gives way to a new split that shows
    /// its view and another one.
    pub open spec fn divided(
        self,
        parent: SplitIdx,
        i: int,
        direction: Direction,
        view: ViewIdx,
        other: ViewIdx,
    ) -> NodesView {
        let (c, a) = (ConstraintsView::free(), AnchorsView::free());
        self.forked(ComponentView::View(view), parent, direction, c, a).grown(
            ComponentView::View(other),
            self.new_split_idx(),
            c,
            a,
        ).with_swap_removed(parent, i).laid_out(parent)
    }

    pub open spec fn division_of_leaf_fits(
        self,
        parent: SplitIdx,
        i: int,
        direction: Direction,
        view: ViewIdx,
        other: ViewIdx,
    ) -> bool {
        let (c, a) = (ConstraintsView::free(), AnchorsView::free());
        let m = self.forked(ComponentView::View(view), parent, direction, c, a);
        let n = m.grown(ComponentView::View(other), self.new_split_idx(), c, a);
        &&& self.forked_fits(ComponentView::View(view), parent, direction, c, a)
        &&& m.grown_fits(ComponentView::View(other), self.new_split_idx(), c, a)
        &&& n.with_swap_removed(parent, i).layout_fits(parent)
    }
}

/// A list of children with the last one moved to the place of one that goes.
pub proof fn lemma_swap_removed(m: NodesView, p: SplitIdx, i: int)
    requires
        m.linked(-1),
        p.0 < m.splits.len(),
        0 <= i < m.split(p).children.len(),
        m.split(p).children[i] is Leaf,
        m.split(p).focus == 0 || m.split(p).focus < m.split(p).children.len() - 1,
        m.split(p).children.len() > 1,
    ensures
        m.with_swap_removed(p, i).linked(-1),
        m.filled() ==> m.with_swap_removed(p, i).filled(),
{
    let old_c = m.split(p).children;
    let c = swap_removed(old_c, i);
    let gone = old_c[i];
    let rank = choose|rank: Seq<nat>| m.ranked(rank);
    assert(m.children_linked(p.0 as int));
    let n = old_c.len() - 1;
    assert forall|y: NodeIdx| #[trigger] c.contains(y) <==> old_c.contains(y) && y != gone by {
        if c.contains(y) {
            let k = choose|k: int| 0 <= k < c.len() && c[k] == y;
            if k == i {
                assert(old_c[n] == y);
            } else {
                assert(old_c[k] == y);
            }
        }
        if old_c.contains(y) && y != gone {
            let k = choose|k: int| 0 <= k < old_c.len() && old_c[k] == y;
            if k == n {
                assert(c[i] == y);
            } else {
                assert(c[k] == y);
            }
        }
    }
    assert(c.no_duplicates()) by {
        assert forall|a: int, b: int|
            0 <= a < c.len() && 0 <= b < c.len() && a != b implies c[a] != c[b] by {
            let a2 = if a == i {
                n
            } else {
                a
            };
            let b2 = if b == i {
                n
            } else {
                b
            };
            assert(old_c[a2] != old_c[b2]);
        }
    }
    tree_pruning::lemma_fewer_children_linked(
        m,
        -1,
        rank,
        p,
        c,
        m.split(p).focus,
        gone,
    );
    let g = m.with_swap_removed(p, i);
    assert(g == m.with_split(p, SplitView { children: c, focus: m.split(p).focus, ..m.split(p) }));
    if m.filled() {
        assert(g.filled_except(p));
        assert(g.split(p).children.len() > 0);
    }
}

/// The view as it is after its buffer is switched to one with the given text,
/// before it scrolls.
pub open spec fn switched_view(v: TextView, idx: BufferIdx, b: BufferView) -> TextView {
    let u = TextView { buf: idx, cursor: b.last_cursor, off: b.last_off, ..v };
    TextView { prefered_x: u.column(b.text) as usize, ..u }
}

/// A place in a text that may have become shorter.
pub open spec fn clipped(i: usize, t: Seq<char>) -> usize {
    motion::least(i as int, t.len() as int) as usize
}

pub open spec fn remembered(b: BufferView) -> BufferView {
    BufferView {
        last_cursor: clipped(b.last_cursor, b.text),
        last_off: clipped(b.last_off, b.text),
        ..b
    }
}

impl Scene {
    pub open spec fn new(
        line: CmdLine,
        nodes: Nodes,
        focus: LeafIdx,
        views: Views,
        buffers: Buffers,
        cwd: String,
    ) -> Scene {
        Scene { line: line@, nodes: nodes@, focus, views: views@, buffers: buffers@, cwd: cwd@ }
    }

    // ---- the view that the command line was entered from

    pub open spec fn leaf_idx(self) -> LeafIdx {
        self.line.last_view.0
    }

    pub open spec fn view_idx(self) -> ViewIdx {
        self.line.last_view.1
    }

    pub open spec fn view(self) -> TextView {
        self.views[self.view_idx().0 as int]
    }

    pub open spec fn buffer_idx(self) -> BufferIdx {
        self.view().buf
    }

    pub open spec fn parent(self) -> SplitIdx {
        self.nodes.leaf(self.leaf_idx()).parent
    }

    /// That view and its leaf are there.
    pub open spec fn anchored(self) -> bool {
        self.leaf_idx().0 < self.nodes.leaves.len() && self.view_idx().0 < self.views.len()
    }

    pub open spec fn with_view(self, v: TextView) -> Scene {
        Scene { views: self.views.update(self.view_idx().0 as int, v), ..self }
    }

    /// The focus on a view, the command line ready for the next time.
    pub open spec fn entered(self, l: LeafIdx) -> Scene {
        Scene {
            focus: l,
            line: CmdLineView { mode: cmd_line::Mode::Insert, cursor: 0, ..self.line },
            ..self
        }
    }

    // ---- cd, pwd, quit

    pub open spec fn moved_to(self, found: DirFound) -> Scene {
        match found {
            DirFound::Directory(p) => Scene { cwd: p@, ..self },
            _ => self,
        }
    }

    pub open spec fn cd_stop(self, found: DirFound) -> EditorErrView {
        match found {
            DirFound::Missing => EditorErrView::Msg("path does not exist"@),
            DirFound::NotDirectory => EditorErrView::Msg("path is not directory"@),
            DirFound::Directory(p) => EditorErrView::Msg(p@),
        }
    }

    pub open spec fn cd(self, arg: Option<ArgValView>, reply: Reply) -> (
        Scene,
        Option<EditorErrView>,
    ) {
        match arg {
            None => (self, None),
            Some(ArgValView::DirectoryPath(_)) => match reply {
                Reply::Directory(found) => (self.moved_to(found), Some(self.cd_stop(found))),
                _ => (self, None),
            },
            Some(_) => (self, Some(EditorErrView::Msg("needs to be directory path"@))),
        }
    }

    pub open spec fn quit_stop(self, force: bool) -> EditorErrView {
        let d = dirty(self.buffers.data, self.buffers.data.len() as int);
        if !force && d.len() > 0 {
            EditorErrView::Msg("cant quit dirty buffers: "@ + "["@ + joined(d) + "]"@)
        } else {
            EditorErrView::Quit
        }
    }

    // ---- buffer-close

    pub open spec fn close_target(self, arg: Option<ArgValView>) -> BufferIdx {
        match arg {
            Some(ArgValView::BufferIndex(idx)) => BufferIdx { idx },
            _ => self.buffer_idx(),
        }
    }

    pub open spec fn close_stop(self, target: BufferIdx, force: bool) -> Option<EditorErrView> {
        let b = self.buffers.at(target);
        if target.idx == SCRATCH {
            Some(EditorErrView::Msg("will not close special buffer: 0"@))
        } else if b.has_flag(READ_ONLY) {
            Some(EditorErrView::ReadOnly(target))
        } else if b.undo.len() > 0 && !force {
            Some(EditorErrView::Dirty(target))
        } else {
            None
        }
    }

    /// A buffer closed; the view shows the one without a file if it showed it.
    pub open spec fn without_buffer(self, target: BufferIdx) -> Scene {
        let s = if self.buffer_idx() == target {
            let s = self.with_view(
                TextView {
                    buf: BufferIdx { idx: SCRATCH },
                    off: 0,
                    cursor: 0,
                    prefered_x: 0,
                    ..self.view()
                },
            );
            Scene { line: CmdLineView { input: Seq::empty(), ..s.line }, ..s }
        } else {
            self
        };
        (Scene { buffers: s.buffers.closed(target), ..s }).entered(self.leaf_idx())
    }

    pub open spec fn close_buffer(self, arg: Option<ArgValView>, force: bool) -> (
        Scene,
        Option<EditorErrView>,
    ) {
        let target = self.close_target(arg);
        match self.close_stop(target, force) {
            Some(e) => (self, Some(e)),
            None => (self.without_buffer(target), None),
        }
    }

    pub open spec fn can_close_buffer(self, arg: Option<ArgValView>, force: bool) -> bool {
        let target = self.close_target(arg);
        &&& (arg is None || arg matches Some(ArgValView::BufferIndex(_)))
        &&& self.buffers.has(target)
        &&& self.close_stop(target, force) is None ==> self.buffers.at(target).generation
            < u64::MAX
    }

    // ---- open

    /// The buffer that a resolved path is already open in.
    pub open spec fn opened(self, resolved: Option<Seq<char>>) -> Option<BufferIdx> {
        match resolved {
            Some(p) if self.buffers.path_map.contains_key(p) => Some(self.buffers.path_map[p]),
            _ => None,
        }
    }

    pub open spec fn rewound(self) -> Scene {
        self.with_view(TextView { off: 0, cursor: 0, prefered_x: 0, ..self.view() })
    }

    /// The view on a new buffer.
    pub open spec fn with_new_buffer(
        self,
        path: Option<Seq<char>>,
        resolved: Option<Seq<char>>,
        found: Found,
    ) -> Scene {
        let b = BufferView::loaded(path, 0, found);
        let s = Scene { buffers: self.buffers.pushed(b, resolved), ..self };
        s.with_view(TextView { buf: self.buffers.next_idx(), ..s.view() }).entered(
            self.leaf_idx(),
        )
    }

    /// The view on a buffer that is open, where that was last left.
    pub open spec fn with_open_buffer(self, idx: BufferIdx) -> Scene {
        self.with_view(switched_view(self.view(), idx, self.buffers.at(idx))).entered(
            self.leaf_idx(),
        )
    }

    pub open spec fn open(self, arg: Option<ArgValView>, reply: Reply) -> (
        Scene,
        Option<EditorErrView>,
    ) {
        let s = self.rewound();
        match arg {
            None => (s.with_new_buffer(None, None, Found::Missing), None),
            Some(ArgValView::FilePath(_)) => match reply {
                Reply::File(f) => match s.opened(strings::option_text(f.resolved)) {
                    Some(idx) => (s.with_open_buffer(idx), None),
                    None => match f.content {
                        Ok(found) => (
                            s.with_new_buffer(
                                Some(f.path@),
                                strings::option_text(f.resolved),
                                found,
                            ),
                            None,
                        ),
                        Err(e) => (s, Some(EditorErrView::Io(e@))),
                    },
                },
                _ => (s, None),
            },
            Some(_) => (s, Some(EditorErrView::InvalidBuffer)),
        }
    }

    pub open spec fn can_open(self, arg: Option<ArgValView>, reply: Reply) -> bool {
        arg matches Some(ArgValView::FilePath(_)) ==> {
            &&& reply is File
            &&& self.opened(strings::option_text((reply->File_0).resolved)) matches Some(idx)
                ==> self.buffers.at(idx).last_cursor <= self.buffers.at(idx).text.len()
        }
    }

    // ---- view-close

    /// The tree without the leaf of the view.
    pub open spec fn nodes_without_view(self) -> NodesView {
        self.nodes.removed(self.views, self.parent(), NodeIdx::Leaf(self.leaf_idx()))
    }

    pub open spec fn close_view(self) -> Scene {
        let m = self.nodes_without_view();
        (Scene {
            nodes: m,
            views: self.nodes.removed_views(
                self.views,
                self.parent(),
                NodeIdx::Leaf(self.leaf_idx()),
            ),
            ..self
        }).entered(m.focused(NodeIdx::Split(m.text_root()))->0)
    }

    pub open spec fn can_close_view(self) -> bool {
        let m = self.nodes_without_view();
        &&& self.nodes.linked(-1)
        &&& self.nodes.live(NodeIdx::Split(self.parent()))
        &&& self.nodes.split(self.parent()).children.contains(NodeIdx::Leaf(self.leaf_idx()))
        &&& self.nodes.removal_fits(self.views, self.parent(), NodeIdx::Leaf(self.leaf_idx()))
        &&& m.roots.len() > ROOT_TEXT_VIEW
        &&& m.focused(NodeIdx::Split(m.text_root())) is Some
    }

    // ---- buffer-switch

    /// The buffer of the view remembers where it was left.
    pub open spec fn left(self) -> Scene {
        let b = self.buffers.at(self.buffer_idx());
        Scene {
            buffers: self.buffers.with(
                self.buffer_idx(),
                BufferView { last_off: self.view().off, last_cursor: self.view().cursor, ..b },
            ),
            ..self
        }
    }

    /// The file of a buffer without text is read again.
    pub open spec fn needs_reload(self, idx: BufferIdx) -> bool {
        self.buffers.at(idx).text.len() == 0 && self.buffers.at(idx).file is Some
    }

    pub open spec fn reload_stop(self, idx: BufferIdx, reply: Reply) -> Option<EditorErrView> {
        match reply {
            Reply::Reloaded(Some(Err(e))) if self.needs_reload(idx) => Some(
                EditorErrView::Io(e@),
            ),
            _ => None,
        }
    }

    pub open spec fn reloaded_buffer(self, idx: BufferIdx, reply: Reply) -> BufferView {
        let b = self.buffers.at(idx);
        match reply {
            Reply::Reloaded(Some(Ok(s))) if self.needs_reload(idx) => BufferView {
                text: s@,
                ..b
            },
            _ => b,
        }
    }

    /// The view on another buffer, before it scrolls.
    pub open spec fn turned_to(self, idx: BufferIdx, reply: Reply) -> Scene {
        let s = self.left();
        let b = remembered(s.reloaded_buffer(idx, reply));
        (Scene { buffers: s.buffers.with(idx, b), ..s }).with_view(
            switched_view(self.view(), idx, b),
        )
    }

    pub open spec fn switch_buffer(self, idx: BufferIdx, reply: Reply) -> (
        Scene,
        Option<EditorErrView>,
    ) {
        if !self.buffers.has(idx) {
            (self, Some(EditorErrView::InvalidBuffer))
        } else if self.buffers.at(idx).has_flag(NON_NAVIGATABLE) {
            (
                self,
                Some(
                    EditorErrView::Msg(
                        "buffer "@ + strings::decimal(idx.idx as nat) + " is non navigatable"@,
                    ),
                ),
            )
        } else {
            match self.left().reload_stop(idx, reply) {
                Some(e) => (self.left(), Some(e)),
                None => {
                    let s = self.turned_to(idx, reply);
                    let rect = self.nodes.leaf(self.leaf_idx()).rect;
                    (
                        s.with_view(
                            s.view().scrolled(s.buffers.at(idx).text, rect),
                        ).entered(self.leaf_idx()),
                        None,
                    )
                },
            }
        }
    }

    pub open spec fn can_switch_buffer(self, arg: Option<ArgValView>, reply: Reply) -> bool {
        arg matches Some(ArgValView::BufferIndex(i)) && {
            let idx = BufferIdx { idx: i };
            self.buffers.has(idx) && !self.buffers.at(idx).has_flag(NON_NAVIGATABLE) ==> {
                &&& self.buffers.has(self.buffer_idx())
                &&& self.left().needs_reload(idx) ==> reply is Reloaded
                &&& self.left().reload_stop(idx, reply) is None ==> {
                    let s = self.turned_to(idx, reply);
                    s.view().can_scroll(
                        s.buffers.at(idx).text,
                        self.nodes.leaf(self.leaf_idx()).rect,
                    )
                }
            }
        }
    }

    // ---- buffer-list

    pub open spec fn overlay_root(self) -> SplitIdx {
        self.nodes.roots[ROOT_OVERLAY as int]
    }

    pub open spec fn list_buffers(self) -> Scene {
        Scene {
            nodes: self.nodes.grown(
                ComponentView::BufferList,
                self.overlay_root(),
                buffer_list_constraints(self.buffers.data.len() as int),
                AnchorsView::free(),
            ),
            focus: self.nodes.new_leaf_idx(),
            ..self
        }
    }

    pub open spec fn can_list_buffers(self) -> bool {
        &&& self.nodes.linked(-1)
        &&& self.nodes.roots.len() > ROOT_OVERLAY
        &&& (self.buffers.data.len() as u16) + 2 <= u16::MAX
        &&& self.nodes.grown_fits(
            ComponentView::BufferList,
            self.overlay_root(),
            buffer_list_constraints(self.buffers.data.len() as int),
            AnchorsView::free(),
        )
    }

    // ---- write

    /// The path that the buffer is written to.
    pub open spec fn save_path(self, arg: Option<ArgValView>) -> Option<Seq<char>> {
        match arg {
            Some(ArgValView::FilePath(p)) => Some(p),
            _ => self.buffers.at(self.buffer_idx()).file,
        }
    }

    /// What forbids writing the buffer.
    pub open spec fn save_stop(self, arg: Option<ArgValView>) -> Option<EditorErrView> {
        let b = self.buffers.at(self.buffer_idx());
        if b.has_flag(READ_ONLY) {
            Some(EditorErrView::ReadOnly(self.buffer_idx()))
        } else if b.has_flag(IS_SCRATCH) {
            Some(
                EditorErrView::Msg(
                    "cant save, buffer: "@ + strings::decimal(self.buffer_idx().idx as nat)
                        + " is scratch"@,
                ),
            )
        } else if self.save_path(arg) is None {
            Some(EditorErrView::Msg("new file needs name"@))
        } else {
            None
        }
    }

    pub open spec fn saved(self) -> Scene {
        let b = self.buffers.at(self.buffer_idx());
        (Scene {
            buffers: self.buffers.with(
                self.buffer_idx(),
                BufferView { undo: Seq::empty(), redo: Seq::empty(), ..b },
            ),
            ..self
        }).entered(self.leaf_idx())
    }

    pub open spec fn save(self, arg: Option<ArgValView>, reply: Reply) -> (
        Scene,
        Option<EditorErrView>,
    ) {
        match self.save_stop(arg) {
            Some(e) => (self, Some(e)),
            None => match reply {
                Reply::Done(Err(e)) => (self, Some(EditorErrView::Io(e@))),
                _ => (self.saved(), None),
            },
        }
    }

    pub open spec fn can_save(self, arg: Option<ArgValView>, reply: Reply) -> bool {
        &&& self.buffers.has(self.buffer_idx())
        &&& self.save_stop(arg) is None ==> reply is Done
        &&& (arg is None || arg matches Some(ArgValView::FilePath(_)))
    }

    // ---- split, split-vertical, split-horizontal

    pub open spec fn with_scratch_view(self) -> Scene {
        Scene { views: self.views.push(views::fresh_view(BufferIdx { idx: SCRATCH })), ..self }
    }

    /// Another view beside the one there is.
    pub open spec fn split(self) -> Scene {
        (Scene {
            nodes: self.nodes.grown(
                ComponentView::View(ViewIdx(self.views.len() as usize)),
                self.parent(),
                ConstraintsView::free(),
                AnchorsView::free(),
            ),
            ..self.with_scratch_view()
        }).entered(self.nodes.new_leaf_idx())
    }

    pub open spec fn can_split(self) -> bool {
        &&& self.nodes.linked(-1)
        &&& self.nodes.live(NodeIdx::Split(self.parent()))
        &&& self.nodes.grown_fits(
            ComponentView::View(ViewIdx(self.views.len() as usize)),
            self.parent(),
            ConstraintsView::free(),
            AnchorsView::free(),
        )
    }

    pub open spec fn place_in_parent(self) -> int {
        self.nodes.split(self.parent()).children.index_of(NodeIdx::Leaf(self.leaf_idx()))
    }

    pub open spec fn is_attached(self) -> bool {
        self.nodes.split(self.parent()).children.contains(NodeIdx::Leaf(self.leaf_idx()))
    }

    /// The view and another one share what the view had.
    pub open spec fn divide(self, direction: Direction) -> Scene {
        if self.is_attached() {
            (Scene {
                nodes: self.nodes.divided(
                    self.parent(),
                    self.place_in_parent(),
                    direction,
                    self.view_idx(),
                    ViewIdx(self.views.len() as usize),
                ),
                ..self.with_scratch_view()
            }).entered(self.nodes.new_leaf_idx())
        } else {
            self
        }
    }

    pub open spec fn can_divide(self, direction: Direction) -> bool {
        &&& self.nodes.linked(-1)
        &&& self.parent().0 < self.nodes.splits.len()
        &&& self.is_attached() ==> self.nodes.division_of_leaf_fits(
            self.parent(),
            self.place_in_parent(),
            direction,
            self.view_idx(),
            ViewIdx(self.views.len() as usize),
        )
    }

    // ---- all commands

    /// What a command makes of the scene, and what stops it.
    pub open spec fn executed(self, cmd: CmdValView, reply: Reply) -> (
        Scene,
        Option<EditorErrView>,
    ) {
        match cmd.cmd {
            Cmd::Cd => self.cd(cmd.argument, reply),
            Cmd::Pwd => (self, Some(EditorErrView::Msg(self.cwd))),
            Cmd::Quit => (self, Some(self.quit_stop(cmd.force))),
            Cmd::BufferClose => self.close_buffer(cmd.argument, cmd.force),
            Cmd::Open => self.open(cmd.argument, reply),
            Cmd::ViewClose => (self.close_view(), None),
            Cmd::BufferSwitch => match cmd.argument {
                Some(ArgValView::BufferIndex(idx)) => self.switch_buffer(
                    BufferIdx { idx },
                    reply,
                ),
                _ => (self, None),
            },
            Cmd::BufferList => (self.list_buffers(), None),
            Cmd::Save => self.save(cmd.argument, reply),
            Cmd::SplitV => (self.divide(Direction::Vertical), None),
            Cmd::SplitH => (self.divide(Direction::Horizontal), None),
            Cmd::Split => (self.split(), None),
        }
    }

    /// The command can be carried out with what was told.
    pub open spec fn can_execute(self, cmd: CmdValView, reply: Reply) -> bool {
        &&& self.anchored()
        &&& match cmd.cmd {
            Cmd::Cd => cmd.argument matches Some(ArgValView::DirectoryPath(_))
                ==> reply is Directory,
            Cmd::Pwd => true,
            Cmd::Quit => true,
            Cmd::BufferClose => self.can_close_buffer(cmd.argument, cmd.force),
            Cmd::Open => self.can_open(cmd.argument, reply),
            Cmd::ViewClose => self.can_close_view(),
            Cmd::BufferSwitch => self.can_switch_buffer(cmd.argument, reply),
            Cmd::BufferList => self.can_list_buffers(),
            Cmd::Save => self.can_save(cmd.argument, reply),
            Cmd::SplitV => self.can_divide(Direction::Vertical),
            Cmd::SplitH => self.can_divide(Direction::Horizontal),
            Cmd::Split => self.can_split(),
        }
    }

    /// What a command asks of the world outside.
    pub open spec fn request_of(self, cmd: CmdValView) -> RequestView {
        match (cmd.cmd, cmd.argument) {
            (Cmd::Cd, Some(ArgValView::DirectoryPath(s))) => RequestView::EnterDirectory(s),
            (Cmd::Open, Some(ArgValView::FilePath(s))) => RequestView::OpenFile(s),
            (Cmd::BufferSwitch, Some(ArgValView::BufferIndex(i))) => {
                let idx = BufferIdx { idx: i };
                if self.buffers.has(idx) && !self.buffers.at(idx).has_flag(NON_NAVIGATABLE)
                    && self.needs_reload(idx) {
                    RequestView::ReloadFile(self.buffers.at(idx).file->0)
                } else {
                    RequestView::Nothing
                }
            },
            (Cmd::Save, arg) => if self.save_stop(arg) is None {
                RequestView::WriteFile(
                    self.save_path(arg)->0,
                    self.buffers.at(self.buffer_idx()).text,
                )
            } else {
                RequestView::Nothing
            },
            _ => RequestView::Nothing,
        }
    }
}

// ---- what follows

/// The buffers that hold the editor back are those with edits, but for the one
/// that belongs to no file.
pub proof fn law_dirty(data: Seq<BufferView>, n: int, i: int)
    requires
        0 <= n <= data.len(),
    ensures
        dirty(data, n).contains(i) <==> 0 <= i < n && data[i].undo.len() > 0 && i != SCRATCH,
    decreases n,
{
    if n > 0 {
        law_dirty(data, n - 1, i);
        let before = dirty(data, n - 1);
        let after = dirty(data, n);
        if data[n - 1].undo.len() > 0 && n - 1 != SCRATCH {
            assert(after[after.len() - 1] == n - 1);
            if before.contains(i) {
                let k = choose|k: int| 0 <= k < before.len() && before[k] == i;
                assert(after[k] == i);
            }
            if after.contains(i) && i != n - 1 {
                let k = choose|k: int| 0 <= k < after.len() && after[k] == i;
                assert(before[k] == i);
            }
        }
    }
}

/// The editor ends without force if and only if no file has edits that were
/// not written.
pub proof fn law_quit(s: Scene)
    ensures
        s.quit_stop(true) is Quit,
        s.quit_stop(false) is Quit <==> forall|i: int|
            0 <= i < s.buffers.data.len() && i != SCRATCH ==> (
            #[trigger] s.buffers.data[i]).undo.len() == 0,
{
    let data = s.buffers.data;
    let n = data.len() as int;
    let d = dirty(data, n);
    if d.len() > 0 {
        assert(d.contains(d[0]));
        law_dirty(data, n, d[0]);
        assert(data[d[0]].undo.len() > 0);
    } else {
        assert forall|i: int| 0 <= i < n && i != SCRATCH implies (
        #[trigger] data[i]).undo.len() == 0 by {
            law_dirty(data, n, i);
        }
    }
}

/// A buffer that was written holds the editor back no longer.
pub proof fn law_saved(s: Scene, arg: Option<ArgValView>, reply: Reply)
    requires
        s.buffers.has(s.buffer_idx()),
        s.save(arg, reply).1 is None,
    ensures
        ({
            let t = s.save(arg, reply).0;
            let n = t.buffers.data.len() as int;
            &&& !dirty(t.buffers.data, n).contains(s.buffer_idx().idx as int)
            &&& t.buffers.at(s.buffer_idx()).text == s.buffers.at(s.buffer_idx()).text
        }),
{
    let t = s.save(arg, reply).0;
    law_dirty(t.buffers.data, t.buffers.data.len() as int, s.buffer_idx().idx as int);
}

/// A view that turns to another buffer and back is at the place in the text
/// where it was, keeps to its column, and has the focus.
pub proof fn law_switched_back(s: Scene, other: BufferIdx, there: Reply, back: Reply)
    requires
        s.anchored(),
        s.buffers.has(s.buffer_idx()),
        s.buffers.has(other),
        other != s.buffer_idx(),
        s.view().cursor <= s.buffers.at(s.buffer_idx()).text.len(),
        s.buffers.at(s.buffer_idx()).text.len() > 0,
        !s.buffers.at(s.buffer_idx()).has_flag(NON_NAVIGATABLE),
        s.switch_buffer(other, there).1 is None,
    ensures
        ({
            let own = s.buffer_idx();
            let t = s.switch_buffer(other, there).0;
            let (u, stop) = t.switch_buffer(own, back);
            &&& t.buffer_idx() == other
            &&& stop is None
            &&& u.buffer_idx() == own
            &&& u.view().cursor == s.view().cursor
            &&& u.view().prefered_x == s.view().column(s.buffers.at(own).text)
            &&& u.focus == s.leaf_idx()
            &&& u.buffers.at(own).text == s.buffers.at(own).text
            &&& s.buffers.at(other).text.len() > 0 ==> u.buffers.at(other).text == s.buffers.at(
                other,
            ).text
            &&& s.nodes.leaf(s.leaf_idx()).rect.w > 5 ==> t.can_switch_buffer(
                Some(ArgValView::BufferIndex(own.idx)),
                back,
            )
        }),
{
    let own = s.buffer_idx();
    let a = s.turned_to(other, there);
    let b = remembered(s.left().reloaded_buffer(other, there));
    assert(a.view() == switched_view(s.view(), other, b));
    let t = s.switch_buffer(other, there).0;
    assert(t.view_idx() == s.view_idx());
    assert(t.buffer_idx() == other);
    assert(t.buffers.at(own) == s.left().buffers.at(own));
    assert(!t.left().needs_reload(own));
    let c = t.turned_to(own, back);
    let d = remembered(t.left().reloaded_buffer(own, back));
    assert(d.text == s.buffers.at(own).text);
    assert(c.view() == switched_view(t.view(), own, d));
    text::lemma_line_at(d.text, s.view().cursor as int);
}

} // verus!
