//! Whether a key can be carried out: what has to be looked at in an editor
//! that is steady.
use vstd::prelude::*;
use crate::auto_complete;
use crate::auto_complete::AutoCompleteView;
use crate::commands;
use crate::commands::{Cmd, CmdValView};
use crate::editor::EditorView;
use crate::layout::{AnchorsView, ConstraintsView, Direction};
use crate::line_cmds::Action;
use crate::list_cmds;
use crate::list_cmds::ListAction;
use crate::orderly;
use crate::requests;
use crate::requests::Reply;
use crate::scene;
use crate::scene::Scene;
use crate::steady;
use crate::strings;
use crate::terminal::KeyEvent;
use crate::tree::{ComponentView, NodeIdx, NodesView, Side, SplitIdx};
use crate::tree_growth;
use crate::tree_layout;
use crate::view_cmds;
use crate::view_cmds::ViewCmd;
use crate::views::ViewIdx;

verus! {

impl NodesView {
    /// A split has room for another child.
    pub open spec fn has_place(self, s: SplitIdx) -> bool {
        self.split(s).children.len() < u16::MAX
    }
}

impl Scene {
    /// There is room for another list over the rest.
    pub open spec fn overlay_has_room(self) -> bool {
        self.nodes.has_place(self.overlay_root())
    }

    pub open spec fn list_is_open(self) -> bool {
        self.nodes.split(self.overlay_root()).children.contains(self.list_node())
    }

    /// The command can be carried out with what was told.
    pub open spec fn cmd_ready(self, cmd: CmdValView, reply: Reply) -> bool {
        &&& self.anchored()
        &&& match cmd.cmd {
            Cmd::ViewClose => self.is_attached(),
            Cmd::BufferList => {
                &&& (self.buffers.data.len() as u16) + 2 <= u16::MAX
                &&& self.overlay_has_room()
            },
            Cmd::SplitV => !self.is_attached() || self.nodes.has_place(self.parent()),
            Cmd::SplitH => !self.is_attached() || self.nodes.has_place(self.parent()),
            Cmd::Split => {
                &&& self.nodes.live(NodeIdx::Split(self.parent()))
                &&& self.nodes.has_place(self.parent())
            },
            _ => self.can_execute(cmd, reply),
        }
    }

    pub open spec fn run_ready(self, reply: Reply) -> bool {
        commands::read_line(self.line.input) matches Ok(cmd) ==> self.cmd_ready(cmd, reply)
    }

    /// The action of the command line can be carried out.
    pub open spec fn line_ready(self, action: Action, reply: Reply) -> bool {
        &&& self.anchored()
        &&& match action {
            Action::Exec => self.run_ready(reply),
            Action::Insert(c) => {
                &&& self.line.can_edit()
                &&& self.overlay_has_room() || !self.with_line(
                    self.line.inserted(c),
                ).has_completions(auto_complete::listed_texts(requests::names_of(reply)))
            },
            _ => self.line_allows(action, reply),
        }
    }

    /// The action of the completion list can be carried out.
    pub open spec fn list_ready(
        self,
        action: ListAction,
        ac: AutoCompleteView,
        reply: Reply,
    ) -> bool {
        match action {
            ListAction::Quit => self.list_is_open(),
            ListAction::Exec => self.list_is_open() && self.without_list().run_ready(reply),
            ListAction::BackSpace => self.typing_ready(action, ac, reply),
            ListAction::Insert(_) => self.typing_ready(action, ac, reply),
            _ => self.list_allows(action, ac, reply),
        }
    }

    /// The line can be changed, and the list closed if that leaves nothing to
    /// complete.
    pub open spec fn typing_ready(
        self,
        action: ListAction,
        ac: AutoCompleteView,
        reply: Reply,
    ) -> bool {
        &&& self.line.can_edit()
        &&& self.list_is_open() || !self.line_edited(action).closes_after(
            action,
            self.list_edited(action, ac),
            reply,
        )
    }
}

impl EditorView {
    /// The command of a view can be carried out.
    pub open spec fn view_ready(self, cmd: ViewCmd, v: ViewIdx, reply: Reply) -> bool {
        let s = self.scene;
        match cmd {
            ViewCmd::FocusUp => self.can_refocus(Side::Up),
            ViewCmd::FocusDown => self.can_refocus(Side::Down),
            ViewCmd::FocusRight => self.can_refocus(Side::Right),
            ViewCmd::FocusLeft => self.can_refocus(Side::Left),
            ViewCmd::EnterCmd => s.overlay_has_room(),
            _ => self.pane_allows(cmd, v, reply),
        }
    }

    /// The key can be carried out with what was told.
    pub open spec fn ready(self, key: KeyEvent, reply: Reply) -> bool {
        &&& self.scene.spacious()
        &&& match self.comp() {
            ComponentView::View(v) => self.view_ready(self.view_cmd(key, v), v, reply),
            ComponentView::CmdLine => self.scene.line_ready(self.line_action(key), reply),
            ComponentView::AutoComplete(ac) => self.scene.list_ready(
                list_cmds::list_action_of_key(key),
                ac,
                reply,
            ),
            ComponentView::BufferList => true,
        }
    }
}

// ---- what follows

/// A split that took another child in had room for it.
proof fn lemma_grown_room(
    m: NodesView,
    comp: ComponentView,
    parent: SplitIdx,
    c: ConstraintsView,
    a: AnchorsView,
)
    requires
        parent.0 < m.splits.len(),
        m.grown_fits(comp, parent, c, a),
    ensures
        m.has_place(parent),
{
    let planted = m.planted(comp, parent, c, a);
    assert(planted.division_fits(parent));
}

/// So had one of whose leaves was divided.
proof fn lemma_forked_room(
    m: NodesView,
    comp: ComponentView,
    parent: SplitIdx,
    direction: Direction,
)
    requires
        m.linked(-1),
        m.roomy(),
        m.live(NodeIdx::Split(parent)),
        m.forked_fits(comp, parent, direction, ConstraintsView::free(), AnchorsView::free()),
    ensures
        m.has_place(parent),
{
    let (c, a) = (ConstraintsView::free(), AnchorsView::free());
    let k = m.new_split_idx();
    let b = m.branched(parent, direction, c, a);
    tree_growth::lemma_branched_linked(m, parent, direction, c, a);
    let planted = b.planted(comp, k, c, a);
    tree_growth::lemma_planted_linked(b, -1, comp, k, c, a);
    tree_layout::lemma_linked_sound(planted, -1);
    tree_layout::lemma_relayout_moved(planted, k, planted.splits.len());
    let g = planted.laid_out(k);
    assert(g.division_fits(parent));
    let p = parent.0 as int;
    assert(g.splits[p].children == planted.splits[p].children);
    if m.free_splits.len() > 0 {
        assert(m.free_splits.contains(m.free_splits[m.free_splits.len() - 1]));
    }
    assert(planted.splits[p].children == m.splits[p].children.push(NodeIdx::Split(k)));
}

/// An empty line can be completed to every command.
proof fn lemma_empty_line(s: Scene)
    requires
        s.line.input.len() == 0,
    ensures
        s.has_completions(None),
{
    assert(strings::words(s.line.input).len() == 0);
}

/// A view is ready for what it can do, and for nothing else.
proof fn lemma_view_ready(e: EditorView, cmd: ViewCmd, v: ViewIdx, reply: Reply)
    requires
        e.scene.steady(),
        e.scene.spacious(),
        e.comp() == ComponentView::View(v),
    ensures
        e.view_ready(cmd, v, reply) == e.view_allows(cmd, v, reply),
{
    let s = e.scene;
    orderly::law_focus(s.nodes);
    assert(s.nodes.leaves[s.focus.0 as int].comp == ComponentView::View(v));
    let _ = s.views[v.0 as int];
    match cmd {
        ViewCmd::EnterCmd => {
            let t = s.in_cmd_line(v, s.tree_focus());
            if s.overlay_has_room() {
                steady::law_can_list(t, None);
            }
            lemma_empty_line(t);
            if t.can_list(None) {
                lemma_list_room(t, None);
            }
        },
        _ => {},
    }
}

proof fn lemma_list_room(s: Scene, listed: Option<Seq<Seq<char>>>)
    requires
        s.steady(),
        s.has_completions(listed),
        s.can_list(listed),
    ensures
        s.overlay_has_room(),
{
    assert(s.nodes.live(NodeIdx::Split(s.nodes.roots[2])));
    lemma_grown_room(
        s.nodes,
        ComponentView::AutoComplete(s.completion_list(listed)),
        s.overlay_root(),
        view_cmds::list_constraints(),
        view_cmds::list_anchors(),
    );
}

proof fn lemma_divide_ready(s: Scene, direction: Direction)
    requires
        s.steady(),
        s.anchored(),
        s.roomy(),
    ensures
        s.can_divide(direction) == (!s.is_attached() || s.nodes.has_place(s.parent())),
{
    let parent = s.nodes.leaves[s.leaf_idx().0 as int].parent;
    if !s.is_attached() || s.nodes.has_place(parent) {
        steady::lemma_divide(s, direction);
    } else if s.can_divide(direction) {
        orderly::lemma_parent_of_child_live(s.nodes, parent, NodeIdx::Leaf(s.leaf_idx()));
        lemma_forked_room(s.nodes, ComponentView::View(s.view_idx()), parent, direction);
    }
}

proof fn lemma_cmd_ready(s: Scene, cmd: CmdValView, reply: Reply)
    requires
        s.steady(),
        s.roomy(),
    ensures
        s.cmd_ready(cmd, reply) == s.can_execute(cmd, reply),
{
    if s.anchored() {
        let parent = s.nodes.leaves[s.leaf_idx().0 as int].parent;
        let view = ComponentView::View(ViewIdx(s.views.len() as usize));
        assert(s.nodes.live(NodeIdx::Split(s.nodes.roots[2])));
        match cmd.cmd {
            Cmd::ViewClose => if s.is_attached() {
                steady::lemma_close_view(s);
            },
            Cmd::BufferList => if s.cmd_ready(cmd, reply) {
                steady::lemma_list_buffers(s);
            } else if s.can_list_buffers() {
                lemma_grown_room(
                    s.nodes,
                    ComponentView::BufferList,
                    s.overlay_root(),
                    scene::buffer_list_constraints(s.buffers.data.len() as int),
                    AnchorsView::free(),
                );
            },
            Cmd::SplitV => lemma_divide_ready(s, Direction::Vertical),
            Cmd::SplitH => lemma_divide_ready(s, Direction::Horizontal),
            Cmd::Split => if s.cmd_ready(cmd, reply) {
                steady::lemma_split(s);
            } else if s.can_split() {
                lemma_grown_room(
                    s.nodes,
                    view,
                    parent,
                    ConstraintsView::free(),
                    AnchorsView::free(),
                );
            },
            _ => {},
        }
    }
}

proof fn lemma_run_ready(s: Scene, reply: Reply)
    requires
        s.steady(),
        s.roomy(),
    ensures
        s.run_ready(reply) == s.can_run(reply),
{
    if let Ok(cmd) = commands::read_line(s.line.input) {
        lemma_cmd_ready(s, cmd, reply);
    }
}

proof fn lemma_line_ready(s: Scene, action: Action, reply: Reply)
    requires
        s.steady(),
        s.roomy(),
    ensures
        s.line_ready(action, reply) == s.line_allows(action, reply),
{
    match action {
        Action::Exec => lemma_run_ready(s, reply),
        Action::Insert(c) => {
            let t = s.with_line(s.line.inserted(c));
            let listed = auto_complete::listed_texts(requests::names_of(reply));
            if s.overlay_has_room() {
                steady::law_can_list(t, listed);
            } else if t.has_completions(listed) && t.can_list(listed) {
                lemma_list_room(t, listed);
            }
        },
        _ => {},
    }
}

proof fn lemma_list_ready(s: Scene, action: ListAction, ac: AutoCompleteView, reply: Reply)
    requires
        s.steady(),
        s.spacious(),
    ensures
        s.list_ready(action, ac, reply) == s.list_allows(action, ac, reply),
{
    if s.list_is_open() {
        match action {
            ListAction::Quit => steady::lemma_without_list(s),
            ListAction::Exec => {
                steady::lemma_without_list(s);
                lemma_run_ready(s.without_list(), reply);
            },
            ListAction::BackSpace => steady::lemma_without_list(s.line_edited(action)),
            ListAction::Insert(_) => steady::lemma_without_list(s.line_edited(action)),
            _ => {},
        }
    }
}

/// As long as there are numbers left for new nodes, views and buffers, a
/// steady editor is ready for a key exactly where it can carry it out.
pub proof fn law_ready(e: EditorView, key: KeyEvent, reply: Reply)
    requires
        e.scene.steady(),
    ensures
        e.ready(key, reply) == (e.scene.spacious() && e.allows(key, reply)),
{
    if e.scene.spacious() {
        lemma_ready(e, key, reply);
    }
}

proof fn lemma_ready(e: EditorView, key: KeyEvent, reply: Reply)
    requires
        e.scene.steady(),
        e.scene.spacious(),
    ensures
        e.ready(key, reply) == e.allows(key, reply),
{
    match e.comp() {
        ComponentView::View(v) => lemma_view_ready(e, e.view_cmd(key, v), v, reply),
        ComponentView::CmdLine => lemma_line_ready(e.scene, e.line_action(key), reply),
        ComponentView::AutoComplete(ac) => lemma_list_ready(
            e.scene,
            list_cmds::list_action_of_key(key),
            ac,
            reply,
        ),
        ComponentView::BufferList => {},
    }
}

} // verus!
