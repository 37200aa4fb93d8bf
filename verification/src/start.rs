//! The editor as it starts, and on a screen of another size.
use vstd::prelude::*;
use crate::buffers::{Buffer, BufferIdx, BufferView, Buffers, BuffersView, Found, IS_SCRATCH, SCRATCH};
use crate::cmd_line::{CmdLine, CmdLineView};
use crate::editor::{Editor, EditorView};
use crate::layout::{
    Anchors, AnchorsView, Constraints, ConstraintsView, Dimension, Direction, Position,
};
use crate::nodes::{Component, Dummy, Nodes};
use crate::orderly;
use crate::scene::Scene;
use crate::steady;
use crate::strings;
use crate::tame;
use crate::tree::{ComponentView, LeafIdx, NodeIdx, NodesView, SplitIdx, ROOT_CMD_LINE};
use crate::views;
use crate::views::{TextView, ViewIdx, Views};

verus! {

/// A file that the editor starts with: its path, that path resolved where it
/// could be, and what was found there.
pub struct StartFile {
    pub path: String,
    pub resolved: Option<String>,
    pub found: Found,
}

/// The text root leaves the last line of the screen to the command line.
pub open spec fn text_root_constraints() -> ConstraintsView {
    ConstraintsView {
        min_height: None,
        max_height: Some(seq![Dimension::AddRelative(1), Dimension::SubAbsolute(1)]),
        min_width: None,
        max_width: None,
    }
}

/// The command line takes one line.
pub open spec fn cmd_line_constraints() -> ConstraintsView {
    ConstraintsView {
        min_height: None,
        max_height: Some(seq![Dimension::AddAbsolute(1)]),
        min_width: None,
        max_width: None,
    }
}

/// The command line is on the last line.
pub open spec fn cmd_line_anchors() -> AnchorsView {
    AnchorsView { x: None, y: Some(seq![Position::AddRelative(1), Position::SubAbsolute(1)]) }
}

impl NodesView {
    /// Three roots, for the text, the command line and what is drawn over
    /// them.
    pub open spec fn three_roots(width: u16, height: u16) -> NodesView {
        let (c, a) = (ConstraintsView::free(), AnchorsView::free());
        NodesView::empty().rooted(
            text_root_constraints(),
            a,
            width,
            height,
            Direction::Vertical,
        ).rooted(c, a, width, height, Direction::Horizontal).rooted(
            c,
            a,
            width,
            height,
            Direction::Vertical,
        )
    }

    /// The tree as the editor starts: one view, and the command line.
    pub open spec fn started(width: u16, height: u16) -> NodesView {
        NodesView::three_roots(width, height).grown(
            ComponentView::View(ViewIdx(0)),
            SplitIdx(0),
            ConstraintsView::free(),
            AnchorsView::free(),
        ).grown(
            ComponentView::CmdLine,
            SplitIdx(ROOT_CMD_LINE),
            cmd_line_constraints(),
            cmd_line_anchors(),
        )
    }
}

impl BuffersView {
    /// The buffer that belongs to no file, and the one of the file, if there
    /// is one.
    pub open spec fn started(file: Option<StartFile>) -> BuffersView {
        let b = BuffersView {
            data: seq![BufferView::loaded(None, IS_SCRATCH, Found::Missing)],
            free: Seq::empty(),
            path_map: Map::empty(),
        };
        match file {
            Some(f) => b.pushed(
                BufferView::loaded(Some(f.path@), 0, f.found),
                strings::option_text(f.resolved),
            ),
            None => b,
        }
    }
}

impl EditorView {
    pub open spec fn started(
        width: u16,
        height: u16,
        cwd: Seq<char>,
        file: Option<StartFile>,
    ) -> EditorView {
        let idx: usize = if file is Some {
            1
        } else {
            SCRATCH
        };
        EditorView {
            scene: Scene {
                line: CmdLineView::fresh(),
                nodes: NodesView::started(width, height),
                focus: LeafIdx(0),
                views: seq![views::fresh_view(BufferIdx { idx })],
                buffers: BuffersView::started(file),
                cwd,
            },
            clipboard: None,
        }
    }

    /// The editor on a screen of another size.
    pub open spec fn resized(self, width: u16, height: u16) -> EditorView {
        self.with_scene(
            Scene { nodes: self.scene.nodes.resized(width, height), ..self.scene },
        )
    }
}

fn make_text_root_constraints() -> (c: Constraints)
    ensures
        c@ == text_root_constraints(),
{
    let c: Constraints = Constraints {
        min_height: None,
        max_height: Some(vec![Dimension::AddRelative(1), Dimension::SubAbsolute(1)]),
        min_width: None,
        max_width: None,
    };
    assert(c@.max_height->0 =~= text_root_constraints().max_height->0);
    c
}

fn make_cmd_line_constraints() -> (c: Constraints)
    ensures
        c@ == cmd_line_constraints(),
{
    let c: Constraints = Constraints {
        min_height: None,
        max_height: Some(vec![Dimension::AddAbsolute(1)]),
        min_width: None,
        max_width: None,
    };
    assert(c@.max_height->0 =~= cmd_line_constraints().max_height->0);
    c
}

fn make_cmd_line_anchors() -> (a: Anchors)
    ensures
        a@ == cmd_line_anchors(),
{
    let a: Anchors = Anchors {
        x: None,
        y: Some(vec![Position::AddRelative(1), Position::SubAbsolute(1)]),
    };
    assert(a@.y->0 =~= cmd_line_anchors().y->0);
    a
}

pub proof fn lemma_empty_tree()
    ensures
        NodesView::empty().wf(),
        NodesView::empty().orderly(),
        NodesView::empty().cornered(),
{
    assert(NodesView::empty().ranked(Seq::empty()));
}

pub proof fn lemma_asks()
    ensures
        tame::tame_node(text_root_constraints(), AnchorsView::free()),
        tame::tame_node(cmd_line_constraints(), cmd_line_anchors()),
        tame::tame_node(ConstraintsView::free(), AnchorsView::free()),
{
    orderly::lemma_rest_sized(1);
    orderly::lemma_fixed_sized(1);
    orderly::lemma_from_end_inside(1);
    orderly::lemma_free_tame();
}

impl Editor {
    /// The editor on a screen, with a file if it starts with one.
    pub fn start(width: u16, height: u16, cwd: String, file: Option<StartFile>) -> (res: Editor)
        ensures
            res.buffers.wf(),
            res@ == EditorView::started(width, height, cwd@, file),
            res@.scene.steady(),
    {
        let ghost given = file;
        let mut nodes: Nodes = Nodes::new();
        proof {
            lemma_empty_tree();
            lemma_asks();
            orderly::law_rooted(nodes@, text_root_constraints(), width, height, Direction::Vertical);
        }
        let ghost (c, a) = (ConstraintsView::free(), AnchorsView::free());
        let root: SplitIdx = nodes.new_root(
            make_text_root_constraints(),
            Anchors::new(),
            width,
            height,
            Direction::Vertical,
        );
        proof {
            orderly::law_rooted(nodes@, c, width, height, Direction::Horizontal);
        }
        nodes.new_root(Constraints::new(), Anchors::new(), width, height, Direction::Horizontal);
        proof {
            orderly::law_rooted(nodes@, c, width, height, Direction::Vertical);
        }
        nodes.new_root(Constraints::new(), Anchors::new(), width, height, Direction::Vertical);
        let ghost three = nodes@;
        assert(three == NodesView::three_roots(width, height));
        assert(three.roots =~= seq![SplitIdx(0), SplitIdx(1), SplitIdx(2)]);

        let mut buffers: Buffers = Buffers::new();
        buffers.push(Buffer::new(None, IS_SCRATCH, Found::Missing), None);
        assert(buffers@ =~= BuffersView::started(None)) by {
            assert(buffers@.data =~= BuffersView::started(None).data);
        }
        let bidx: BufferIdx = match file {
            Some(f) => buffers.push(Buffer::new(Some(f.path), 0, f.found), f.resolved),
            None => BufferIdx { idx: SCRATCH },
        };
        let mut views: Views = Views::new();
        let vidx: ViewIdx = views.push(TextView::new(bidx));
        proof {
            assert(three.live(NodeIdx::Split(three.roots[0])));
            orderly::law_grown(three, ComponentView::View(vidx), root, c, a);
        }
        let focus: LeafIdx = nodes.new_leaf(
            Component::View(vidx),
            root,
            Constraints::new(),
            Anchors::new(),
        );
        let ghost one = nodes@;
        proof {
            assert(one.live(NodeIdx::Split(one.roots[1])));
            orderly::law_grown(
                one,
                ComponentView::CmdLine,
                one.roots[1],
                cmd_line_constraints(),
                cmd_line_anchors(),
            );
        }
        let line_root: SplitIdx = nodes.get_root(ROOT_CMD_LINE);
        nodes.new_leaf(
            Component::CmdLine(Dummy()),
            line_root,
            make_cmd_line_constraints(),
            make_cmd_line_anchors(),
        );
        let res: Editor = Editor {
            cmd_line: CmdLine::new(),
            nodes,
            focus,
            views,
            buffers,
            cwd,
            clipboard: None,
        };
        assert(res@ =~= EditorView::started(width, height, cwd@, given));
        res
    }

    /// Lays everything out on a screen of another size.
    pub fn resize(&mut self, width: u16, height: u16)
        requires
            old(self)@.scene.steady(),
        ensures
            final(self)@ == old(self)@.resized(width, height),
            final(self)@.scene.steady(),
            final(self).buffers == old(self).buffers,
    {
        let ghost before = self@;
        proof {
            steady::law_resized(before.scene, width, height);
        }
        self.nodes.recalc_including_root(width, height);
        assert(self@ =~= before.resized(width, height));
    }
}

} // verus!
