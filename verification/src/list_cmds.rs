//! The keys of the completion list, and what they do.
use vstd::prelude::*;
use vstd::string::*;
use crate::auto_complete;
use crate::auto_complete::{AutoComplete, AutoCompleteView};
use crate::cmd_line::{CmdLineView, Mode};
use crate::editor::{Editor, CMDLINE};
use crate::errors;
use crate::errors::{EditorErr, EditorErrView};
use crate::nodes::Component;
use crate::requests;
use crate::requests::{Reply, RequestView};
use crate::scene::Scene;
use crate::terminal::{KeyCode, KeyEvent};
use crate::tree::{ComponentView, LeafIdx, NodeIdx, NodesView, SplitIdx, ROOT_OVERLAY};

verus! {

/// What a key does in the completion list.
#[derive(Clone, Copy, PartialEq, Eq, Structural)]
pub enum ListAction {
    Quit,
    NextCol,
    PrevCol,
    Next,
    Prev,
    BackSpace,
    Exec,
    Insert(char),
    Noop,
}

pub open spec fn list_action_of_key(key: KeyEvent) -> ListAction {
    match key.code {
        KeyCode::Esc => ListAction::Quit,
        KeyCode::Char('j') if key.alt => ListAction::Next,
        KeyCode::Char('k') if key.alt => ListAction::Prev,
        KeyCode::Char('l') if key.alt => ListAction::NextCol,
        KeyCode::Char('h') if key.alt => ListAction::PrevCol,
        KeyCode::Char(c) => ListAction::Insert(c),
        KeyCode::Enter => ListAction::Exec,
        KeyCode::Backspace => ListAction::BackSpace,
        _ => ListAction::Noop,
    }
}

pub fn key_to_list_action(key: KeyEvent) -> (action: ListAction)
    ensures
        action == list_action_of_key(key),
{
    match key.code {
        KeyCode::Esc => ListAction::Quit,
        KeyCode::Char('j') if key.alt => ListAction::Next,
        KeyCode::Char('k') if key.alt => ListAction::Prev,
        KeyCode::Char('l') if key.alt => ListAction::NextCol,
        KeyCode::Char('h') if key.alt => ListAction::PrevCol,
        KeyCode::Char(c) => ListAction::Insert(c),
        KeyCode::Enter => ListAction::Exec,
        KeyCode::Backspace => ListAction::BackSpace,
        _ => ListAction::Noop,
    }
}

impl AutoCompleteView {
    /// The list after its selection has moved.
    pub open spec fn stepped(self, action: ListAction, height: int) -> AutoCompleteView {
        match action {
            ListAction::Next => self.at_next(),
            ListAction::Prev => self.at_prev(),
            ListAction::NextCol => self.at_next_col(height),
            ListAction::PrevCol => self.at_prev_col(height),
            _ => self,
        }
    }

    pub open spec fn can_step_by(self, action: ListAction, height: int) -> bool {
        match action {
            ListAction::Next => self.can_step(),
            ListAction::NextCol => self.can_step_col(height),
            ListAction::PrevCol => self.selected is Some ==> height >= 1,
            _ => true,
        }
    }
}

impl Scene {
    pub open spec fn list_node(self) -> NodeIdx {
        NodeIdx::Leaf(self.focus)
    }

    /// The completion list closed, the focus in the command line.
    pub open spec fn without_list(self) -> Scene {
        Scene {
            nodes: self.nodes.removed(self.views, self.overlay_root(), self.list_node()),
            views: self.nodes.removed_views(self.views, self.overlay_root(), self.list_node()),
            focus: LeafIdx(CMDLINE),
            ..self
        }
    }

    pub open spec fn can_close_list(self) -> bool {
        &&& self.nodes.linked(-1)
        &&& self.nodes.roots.len() > ROOT_OVERLAY
        &&& self.nodes.split(self.overlay_root()).children.contains(self.list_node())
        &&& self.nodes.removal_fits(self.views, self.overlay_root(), self.list_node())
    }

    /// With what the list shows.
    pub open spec fn with_shown_list(self, ac: AutoCompleteView) -> Scene {
        Scene {
            nodes: self.nodes.with_component(self.focus, ComponentView::AutoComplete(ac)),
            ..self
        }
    }

    pub open spec fn in_normal_line(self) -> Scene {
        Scene { line: CmdLineView { mode: Mode::Normal, ..self.line }, ..self }
    }

    /// The list after the line has changed.
    pub open spec fn refreshed_list(
        self,
        ac: AutoCompleteView,
        reply: Reply,
    ) -> AutoCompleteView {
        ac.refreshed(
            self.line.input,
            self.buffers.data.len() as int,
            auto_complete::listed_texts(requests::names_of(reply)),
        )
    }

    /// The line has changed, and nothing is left to complete it to: the list
    /// closes.
    pub open spec fn closes_after(
        self,
        action: ListAction,
        ac: AutoCompleteView,
        reply: Reply,
    ) -> bool {
        match action {
            ListAction::BackSpace => self.refreshed_list(ac, reply).filtered.len() == 0,
            _ => !self.has_completions(auto_complete::listed_texts(requests::names_of(reply))),
        }
    }

    /// The line changed by a key of the list.
    pub open spec fn line_edited(self, action: ListAction) -> Scene {
        Scene {
            line: match action {
                ListAction::BackSpace => self.line.erased(),
                ListAction::Insert(c) => self.line.inserted(c),
                _ => self.line,
            },
            ..self
        }
    }

    /// Taking a character out also takes the selection off.
    pub open spec fn list_edited(self, action: ListAction, ac: AutoCompleteView) -> AutoCompleteView {
        match action {
            ListAction::BackSpace => ac.with_selected(None),
            _ => ac,
        }
    }

    pub open spec fn list_height(self) -> int {
        self.nodes.leaf(self.focus).rect.h as int
    }

    /// What an action of the completion list makes of the scene, and what
    /// stops it.
    pub open spec fn list_acted(self, action: ListAction, ac: AutoCompleteView, reply: Reply) -> (
        Scene,
        Option<EditorErrView>,
    ) {
        match action {
            ListAction::Noop => (self, None),
            ListAction::Quit => (self.without_list(), None),
            ListAction::Exec => {
                let (s, stop) = self.without_list().ran(reply);
                (s.in_normal_line(), stop)
            },
            ListAction::BackSpace => (self.list_typed(action, ac, reply), None),
            ListAction::Insert(_) => (self.list_typed(action, ac, reply), None),
            _ => {
                let next = ac.stepped(action, self.list_height());
                (
                    (Scene { line: next.completed(self.line), ..self }).with_shown_list(next),
                    None,
                )
            },
        }
    }

    pub open spec fn list_typed(
        self,
        action: ListAction,
        ac: AutoCompleteView,
        reply: Reply,
    ) -> Scene {
        let s = self.line_edited(action);
        let list = self.list_edited(action, ac);
        if s.closes_after(action, list, reply) {
            s.without_list()
        } else {
            s.with_shown_list(s.refreshed_list(list, reply))
        }
    }

    /// The action can be carried out.
    pub open spec fn list_allows(
        self,
        action: ListAction,
        ac: AutoCompleteView,
        reply: Reply,
    ) -> bool {
        &&& self.focus.0 < self.nodes.leaves.len()
        &&& match action {
            ListAction::Noop => true,
            ListAction::Quit => self.can_close_list(),
            ListAction::Exec => self.can_close_list() && self.without_list().can_run(reply),
            ListAction::BackSpace => self.can_type_in_list(action, ac, reply),
            ListAction::Insert(_) => self.can_type_in_list(action, ac, reply),
            _ => {
                let next = ac.stepped(action, self.list_height());
                &&& ac.can_step_by(action, self.list_height())
                &&& self.line.on_char()
                &&& next.selected matches Some(i) ==> i < next.filtered.len()
            },
        }
    }

    pub open spec fn can_type_in_list(
        self,
        action: ListAction,
        ac: AutoCompleteView,
        reply: Reply,
    ) -> bool {
        let s = self.line_edited(action);
        &&& self.line.can_edit()
        &&& s.closes_after(action, self.list_edited(action, ac), reply) ==> s.can_close_list()
    }

    /// What an action of the completion list asks of the world outside.
    pub open spec fn list_request(self, action: ListAction) -> RequestView {
        match action {
            ListAction::Exec => self.without_list().run_request(),
            ListAction::BackSpace => RequestView::List(
                auto_complete::listing_of(self.line_edited(action).line.input),
            ),
            ListAction::Insert(_) => RequestView::List(
                auto_complete::listing_of(self.line_edited(action).line.input),
            ),
            _ => RequestView::Nothing,
        }
    }
}

/// A copy of a completion list.
pub fn copy_list(ac: &AutoComplete) -> (res: AutoComplete)
    ensures
        res@ == ac@,
{
    let mut filtered: Vec<String> = Vec::new();
    let mut i: usize = 0;
    while i < ac.filtered.len()
        invariant
            i <= ac.filtered@.len(),
            filtered@.len() == i,
            forall|k: int| 0 <= k < i ==> (#[trigger] filtered@[k])@ == ac.filtered@[k]@,
        decreases ac.filtered@.len() - i,
    {
        let s: String = ac.filtered[i].clone();
        filtered.push(s);
        i = i + 1;
    }
    let res: AutoComplete = AutoComplete {
        selected: ac.selected,
        filtered,
        progress: ac.progress,
    };
    assert(res@.filtered =~= ac@.filtered);
    res
}

impl Editor {
    /// Closes the completion list.
    fn close_list(&mut self)
        requires
            old(self)@.scene.can_close_list(),
        ensures
            final(self)@ == old(self)@.with_scene(old(self)@.scene.without_list()),
            final(self).buffers == old(self).buffers,
            old(self).nodes@.wf() ==> final(self).nodes@.wf(),
    {
        let ghost before = self@;
        proof {
            assert(before.scene.nodes.live(NodeIdx::Split(before.scene.nodes.roots[2])));
        }
        let root: SplitIdx = self.nodes.get_root(ROOT_OVERLAY);
        let n: NodeIdx = NodeIdx::Leaf(self.focus);
        self.nodes.remove_child(root, &mut self.views, &mut self.focus, n);
        self.focus = LeafIdx(CMDLINE);
        assert(self@ =~= before.with_scene(before.scene.without_list()));
    }

    fn show_list(&mut self, ac: AutoComplete)
        requires
            old(self)@.scene.focus.0 < old(self)@.scene.nodes.leaves.len(),
        ensures
            final(self)@ == old(self)@.with_scene(old(self)@.scene.with_shown_list(ac@)),
            final(self).buffers == old(self).buffers,
            old(self).nodes@.wf() ==> final(self).nodes@.wf(),
    {
        let ghost before = self@;
        self.nodes.get_mut_leaf(self.focus).comp = Component::AutoComplete(ac);
        proof {
            if before.scene.nodes.wf() {
                lemma_with_component_wf(before.scene.nodes, self.focus, ComponentView::AutoComplete(ac@));
            }
        }
        assert(self@ =~= before.with_scene(before.scene.with_shown_list(ac@)));
    }

    /// Changes the line by a key of the list.
    fn type_in_list(&mut self, action: ListAction, ac: AutoComplete, reply: Reply)
        requires
            action is BackSpace || action is Insert,
            old(self)@.scene.list_allows(action, ac@, reply),
        ensures
            final(self)@ == old(self)@.with_scene(
                old(self)@.scene.list_typed(action, ac@, reply),
            ),
            final(self).buffers == old(self).buffers,
            old(self).nodes@.wf() ==> final(self).nodes@.wf(),
    {
        let ghost before = self@;
        let mut list: AutoComplete = ac;
        match action {
            ListAction::BackSpace => {
                self.cmd_line.backspace();
                list.selected = None;
            },
            ListAction::Insert(c) => self.cmd_line.insert(c),
            _ => {},
        }
        let ghost s = before.scene.line_edited(action);
        assert(self@.scene =~= s);
        assert(list@ =~= before.scene.list_edited(action, ac@));
        let listed: Option<Vec<String>> = match reply {
            Reply::Names(names) => names,
            _ => None,
        };
        let ghost edited = list@;
        let refreshed: Result<(), ()> = list.refresh_filtered_and_progress(
            &self.cmd_line,
            &self.buffers,
            &listed,
        );
        let closes: bool = match action {
            ListAction::BackSpace => list.filtered.len() == 0,
            _ => refreshed.is_err(),
        };
        assert(closes == s.closes_after(action, edited, reply));
        if closes {
            self.close_list();
        } else {
            self.show_list(list);
        }
        assert(self@ =~= before.with_scene(before.scene.list_typed(action, ac@, reply)));
    }

    /// Moves the selection of the list and writes it to the line.
    fn step_in_list(&mut self, action: ListAction, ac: AutoComplete, Ghost(reply): Ghost<Reply>)
        requires
            action is Next || action is Prev || action is NextCol || action is PrevCol,
            old(self)@.scene.list_allows(action, ac@, reply),
        ensures
            final(self)@ == old(self)@.with_scene(
                old(self)@.scene.list_acted(action, ac@, reply).0,
            ),
            final(self).buffers == old(self).buffers,
            old(self).nodes@.wf() ==> final(self).nodes@.wf(),
    {
        let ghost before = self@;
        let height: u16 = self.nodes.get_leaf(self.focus).rect.h;
        let mut list: AutoComplete = ac;
        match action {
            ListAction::Next => list.select_next(),
            ListAction::Prev => list.select_prev(),
            ListAction::NextCol => list.select_next_col(height),
            _ => list.select_prev_col(height),
        }
        list.complete(&mut self.cmd_line);
        let ghost s = Scene { line: list@.completed(before.scene.line), ..before.scene };
        assert(self@.scene =~= s);
        self.show_list(list);
    }

    /// Carries out an action of the completion list.
    pub fn exec_list_action(&mut self, action: ListAction, ac: AutoComplete, reply: Reply) -> (res:
        Result<(), EditorErr>)
        requires
            old(self).buffers.wf(),
            old(self)@.scene.list_allows(action, ac@, reply),
        ensures
            final(self).buffers.wf(),
            (final(self)@.scene, errors::stop_of(res)) == old(self)@.scene.list_acted(
                action,
                ac@,
                reply,
            ),
            final(self)@.clipboard == old(self)@.clipboard,
            old(self).nodes@.wf() ==> final(self).nodes@.wf(),
    {
        let ghost before = self@;
        match action {
            ListAction::Noop => Ok(()),
            ListAction::Quit => {
                self.close_list();
                Ok(())
            },
            ListAction::Exec => {
                self.close_list();
                let ghost closed = self@;
                let res: Result<(), EditorErr> = self.cmd_line.exec(
                    &mut self.nodes,
                    &mut self.views,
                    &mut self.focus,
                    &mut self.buffers,
                    &mut self.cwd,
                    reply,
                );
                let ghost ran = self@.scene;
                self.cmd_line.mode = Mode::Normal;
                assert(self@.scene =~= ran.in_normal_line());
                res
            },
            ListAction::BackSpace => {
                self.type_in_list(action, ac, reply);
                Ok(())
            },
            ListAction::Insert(_) => {
                self.type_in_list(action, ac, reply);
                Ok(())
            },
            _ => {
                self.step_in_list(action, ac, Ghost(reply));
                Ok(())
            },
        }
    }
}

/// What a leaf shows does not matter to the shape of the tree.
pub proof fn lemma_with_component_wf(m: NodesView, l: LeafIdx, comp: ComponentView)
    requires
        m.wf(),
        l.0 < m.leaves.len(),
    ensures
        m.with_component(l, comp).wf(),
{
    let g = m.with_component(l, comp);
    let rank = choose|rank: Seq<nat>| m.ranked(rank);
    assert(g.ranked(rank)) by {
        assert forall|i: int, k: int|
            0 <= i < g.splits.len() && 0 <= k < g.splits[i].children.len() implies (
        #[trigger] g.splits[i].children[k] matches NodeIdx::Split(c) ==> rank[c.0 as int]
            < rank[i]) by {
            let _ = m.splits[i].children[k];
        }
    }
    assert forall|i: int| 0 <= i < g.splits.len() implies #[trigger] g.children_linked(i) by {
        assert(m.children_linked(i));
        let c = m.splits[i].children;
        assert forall|k: int| 0 <= k < c.len() implies {
            &&& g.live(#[trigger] c[k])
            &&& g.parent_of(c[k]) == Some(SplitIdx(i as usize))
        } by {
            assert(m.live(c[k]));
        }
    }
    assert forall|i: int|
        0 <= i < g.splits.len() && !g.free_splits.contains(
            i as usize,
        ) implies #[trigger] g.parent_linked(i) by {
        assert(m.parent_linked(i));
    }
    assert forall|k: int| 0 <= k < g.roots.len() implies {
        &&& g.live(NodeIdx::Split(#[trigger] g.roots[k]))
        &&& g.split(g.roots[k]).parent is None
    } by {
        assert(m.live(NodeIdx::Split(m.roots[k])));
    }
    assert forall|i: int| 0 <= i < g.leaves.len() implies (#[trigger] g.leaves[i]).parent.0
        < g.splits.len() by {
        let _ = m.leaves[i];
    }
    assert forall|i: int, k: int|
        0 <= i < g.splits.len() && 0 <= k < g.splits[i].children.len() implies (
    #[trigger] g.splits[i].children[k] matches NodeIdx::Split(c) ==> g.split(c).children.len()
        > 0) by {
        let _ = m.splits[i].children[k];
    }
}

} // verus!
