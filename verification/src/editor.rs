//! The editor: all of its state.
use vstd::prelude::*;
use crate::buffers::{BufferView, Buffers};
use crate::cmd_line::CmdLine;
use crate::edits::Pane;
use crate::layout::Rect;
use crate::nodes::Nodes;
use crate::scene::Scene;
use crate::strings;
use crate::tree::{LeafIdx, NodeIdx, SplitIdx};
use crate::views::{TextView, ViewIdx, Views};

verus! {

/// The number of the leaf that shows the command line.
pub const CMDLINE: usize = 1;

pub struct Editor {
    pub cmd_line: CmdLine,
    pub nodes: Nodes,
    pub focus: LeafIdx,
    pub views: Views,
    pub buffers: Buffers,
    pub cwd: String,
    /// What was yanked.
    pub clipboard: Option<String>,
}

#[verifier::ext_equal]
pub struct EditorView {
    pub scene: Scene,
    pub clipboard: Option<Seq<char>>,
}

impl View for Editor {
    type V = EditorView;

    open spec fn view(&self) -> EditorView {
        EditorView {
            scene: Scene::new(
                self.cmd_line,
                self.nodes,
                self.focus,
                self.views,
                self.buffers,
                self.cwd,
            ),
            clipboard: strings::option_text(self.clipboard),
        }
    }
}

impl Scene {
    /// The leaf that the focus of the tree leads to from the first split.
    pub open spec fn tree_focus(self) -> LeafIdx {
        self.nodes.focused(NodeIdx::Split(SplitIdx(0)))->0
    }

    pub open spec fn tree_rect(self) -> Rect {
        self.nodes.leaf(self.tree_focus()).rect
    }

    /// The focus of the tree leads to a leaf.
    pub open spec fn has_tree_focus(self) -> bool {
        &&& self.nodes.sound()
        &&& self.nodes.splits.len() > 0
        &&& self.nodes.focused(NodeIdx::Split(SplitIdx(0))) is Some
    }

    pub open spec fn view_at(self, v: ViewIdx) -> TextView {
        self.views[v.0 as int]
    }

    pub open spec fn buffer_of(self, v: ViewIdx) -> BufferView {
        self.buffers.at(self.view_at(v).buf)
    }

    /// A view and its buffer.
    pub open spec fn pane(self, v: ViewIdx) -> Pane {
        Pane::new(self.view_at(v), self.buffer_of(v))
    }

    /// The view and its buffer are there.
    pub open spec fn has_pane(self, v: ViewIdx) -> bool {
        v.0 < self.views.len() && self.buffers.has(self.view_at(v).buf)
    }

    pub open spec fn with_view_at(self, v: ViewIdx, view: TextView) -> Scene {
        Scene { views: self.views.update(v.0 as int, view), ..self }
    }

    pub open spec fn with_pane(self, v: ViewIdx, p: Pane) -> Scene {
        Scene {
            views: self.views.update(v.0 as int, p.view),
            buffers: self.buffers.with(self.view_at(v).buf, p.buffer),
            ..self
        }
    }
}

impl EditorView {
    pub open spec fn with_scene(self, scene: Scene) -> EditorView {
        EditorView { scene, ..self }
    }
}

} // verus!
