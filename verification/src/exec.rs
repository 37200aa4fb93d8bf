//! The commands of the command line, carried out.
use vstd::prelude::*;
use vstd::string::*;
use crate::buffers;
use crate::buffers::{
    Buffer, BufferIdx, Buffers, Found, IS_SCRATCH, NON_NAVIGATABLE, READ_ONLY, SCRATCH,
};
use crate::cmd_line::{CmdLine, Mode};
use crate::commands::{ArgVal, ArgValView, Cmd, CmdVal};
use crate::commands;
use crate::errors;
use crate::errors::EditorErr;
use crate::layout::{Anchors, Constraints, Dimension, Direction, Rect};
use crate::nodes::{Component, Nodes};
use crate::requests::{DirFound, FileFound, Reply};
use crate::scene;
use crate::scene::Scene;
use crate::strings;
use crate::text;
use crate::tree::{LeafIdx, NodeIdx, SplitIdx, ROOT_OVERLAY, ROOT_TEXT_VIEW};
use crate::tree_layout;
use crate::tree_pruning;
use crate::views::{TextView, ViewIdx, Views};

verus! {

/// The focus goes to a view, the command line is ready for the next time.
fn enter_view(focus: &mut LeafIdx, lidx: LeafIdx, cmd_line: &mut CmdLine)
    ensures
        *final(focus) == lidx,
        final(cmd_line).mode == Mode::Insert,
        final(cmd_line).cursor == 0,
        final(cmd_line).input == old(cmd_line).input,
        final(cmd_line).error == old(cmd_line).error,
        final(cmd_line).selection == old(cmd_line).selection,
        final(cmd_line).last_view == old(cmd_line).last_view,
{
    cmd_line.mode = Mode::Insert;
    cmd_line.cursor = 0;
    *focus = lidx;
}

fn dirty_buffers(buffers: &Buffers) -> (res: Vec<usize>)
    ensures
        res@.map_values(|i: usize| i as int) == scene::dirty(
            buffers@.data,
            buffers@.data.len() as int,
        ),
{
    let ghost data = buffers@.data;
    let mut res: Vec<usize> = Vec::new();
    let mut i: usize = 0;
    assert(res@.map_values(|i: usize| i as int) =~= Seq::<int>::empty());
    while i < buffers.data.len()
        invariant
            i <= buffers.data@.len(),
            data == buffers@.data,
            res@.map_values(|i: usize| i as int) == scene::dirty(data, i as int),
        decreases buffers.data@.len() - i,
    {
        assert(data[i as int] == buffers.data@[i as int]@);
        let ghost before = res@;
        if buffers.data[i].undo.len() > 0 && i != SCRATCH {
            res.push(i);
            assert(res@.map_values(|i: usize| i as int) =~= before.map_values(
                |i: usize| i as int,
            ).push(i as int));
        }
        i = i + 1;
    }
    res
}

fn join_numbers(v: &Vec<usize>) -> (s: String)
    ensures
        s@ == scene::joined(v@.map_values(|i: usize| i as int)),
{
    let ghost all = v@.map_values(|i: usize| i as int);
    let mut s: String = String::new();
    let mut i: usize = 0;
    while i < v.len()
        invariant
            i <= v@.len(),
            all == v@.map_values(|i: usize| i as int),
            s@ == scene::joined(all.take(i as int)),
        decreases v@.len() - i,
    {
        proof {
            assert(all.take(i + 1).drop_last() =~= all.take(i as int));
            assert(all.take(i + 1).last() == v@[i as int]);
        }
        if i > 0 {
            s.append(", ");
        }
        let n: String = strings::to_decimal(v[i]);
        let ghost before = s@;
        s.append(n.as_str());
        if i == 0 {
            assert(s@ =~= strings::decimal(v@[0] as nat));
        }
        i = i + 1;
    }
    assert(all.take(i as int) =~= all);
    s
}

fn exec_quit(force: bool, buffers: &Buffers) -> (res: EditorErr)
    ensures
        forall|s: Scene| s.buffers == buffers@ ==> res@ == #[trigger] s.quit_stop(force),
{
    if !force {
        let dirty: Vec<usize> = dirty_buffers(buffers);
        if dirty.len() > 0 {
            let list: String = join_numbers(&dirty);
            let mut msg: String = "cant quit dirty buffers: ".to_string();
            msg.append("[");
            msg.append(list.as_str());
            msg.append("]");
            return EditorErr::Msg(msg);
        }
    }
    EditorErr::Quit
}

fn exec_buffer_close(
    argument: Option<ArgVal>,
    force: bool,
    cmd_line: &mut CmdLine,
    nodes: &Nodes,
    focus: &mut LeafIdx,
    views: &mut Views,
    buffers: &mut Buffers,
    cwd: &String,
) -> (res: Result<(), EditorErr>)
    requires
        old(buffers).wf(),
        Scene::new(*old(cmd_line), *nodes, *old(focus), *old(views), *old(buffers), *cwd).anchored(),
        Scene::new(
            *old(cmd_line),
            *nodes,
            *old(focus),
            *old(views),
            *old(buffers),
            *cwd,
        ).can_close_buffer(commands::option_arg(argument), force),
    ensures
        final(buffers).wf(),
        (
            Scene::new(
                *final(cmd_line),
                *nodes,
                *final(focus),
                *final(views),
                *final(buffers),
                *cwd,
            ),
            errors::stop_of(res),
        ) == Scene::new(
            *old(cmd_line),
            *nodes,
            *old(focus),
            *old(views),
            *old(buffers),
            *cwd,
        ).close_buffer(commands::option_arg(argument), force),
{
    let ghost s = Scene::new(*cmd_line, *nodes, *focus, *views, *buffers, *cwd);
    let lidx: LeafIdx = cmd_line.last_view.0;
    let vidx: ViewIdx = cmd_line.last_view.1;
    let shown: BufferIdx = views.get(vidx).buf;
    let bidx: BufferIdx = match argument {
        Some(ArgVal::BufferIndex(idx)) => BufferIdx { idx },
        _ => shown,
    };
    if bidx.idx == SCRATCH {
        return Err(EditorErr::Msg("will not close special buffer: 0".to_string()));
    }
    if buffers.get(bidx).check_flag(READ_ONLY) {
        return Err(EditorErr::ReadOnly(bidx));
    }
    let edits: usize = buffers.get(bidx).undo.len();
    assert(edits == s.buffers.at(bidx).undo.len());
    if edits > 0 && !force {
        return Err(EditorErr::Dirty(bidx));
    }
    if shown == bidx {
        let view: &mut TextView = views.get_mut(vidx);
        view.buf = BufferIdx { idx: SCRATCH };
        view.off = 0;
        view.cursor = 0;
        view.prefered_x = 0;
        cmd_line.input = String::new();
    }
    buffers.remove(bidx);
    enter_view(focus, lidx, cmd_line);
    assert(Scene::new(*cmd_line, *nodes, *focus, *views, *buffers, *cwd) =~= s.without_buffer(
        bidx,
    ));
    Ok(())
}

fn exec_open(
    argument: Option<ArgVal>,
    reply: Reply,
    cmd_line: &mut CmdLine,
    nodes: &Nodes,
    focus: &mut LeafIdx,
    views: &mut Views,
    buffers: &mut Buffers,
    cwd: &String,
) -> (res: Result<(), EditorErr>)
    requires
        old(buffers).wf(),
        Scene::new(*old(cmd_line), *nodes, *old(focus), *old(views), *old(buffers), *cwd).anchored(),
        Scene::new(
            *old(cmd_line),
            *nodes,
            *old(focus),
            *old(views),
            *old(buffers),
            *cwd,
        ).can_open(commands::option_arg(argument), reply),
    ensures
        final(buffers).wf(),
        (
            Scene::new(
                *final(cmd_line),
                *nodes,
                *final(focus),
                *final(views),
                *final(buffers),
                *cwd,
            ),
            errors::stop_of(res),
        ) == Scene::new(
            *old(cmd_line),
            *nodes,
            *old(focus),
            *old(views),
            *old(buffers),
            *cwd,
        ).open(commands::option_arg(argument), reply),
{
    let ghost s0 = Scene::new(*cmd_line, *nodes, *focus, *views, *buffers, *cwd);
    let lidx: LeafIdx = cmd_line.last_view.0;
    let vidx: ViewIdx = cmd_line.last_view.1;
    let v: &mut TextView = views.get_mut(vidx);
    v.off = 0;
    v.cursor = 0;
    v.prefered_x = 0;
    let ghost s = Scene::new(*cmd_line, *nodes, *focus, *views, *buffers, *cwd);
    assert(s =~= s0.rewound());
    let ghost arg_view = commands::option_arg(argument);
    match argument {
        Some(ArgVal::FilePath(_)) => {
            let file: FileFound = match reply {
                Reply::File(f) => f,
                _ => {
                    return Ok(());
                },
            };
            let open: Option<BufferIdx> = match &file.resolved {
                Some(p) => buffers.get_by_path(p),
                None => None,
            };
            assert(open == s.opened(strings::option_text(file.resolved)));
            match open {
                Some(b) => {
                    let buffer: &Buffer = buffers.get(b);
                    proof {
                        text::lemma_line_at(buffer@.text, buffer.last_cursor as int);
                    }
                    let line: usize = text::rope_char_to_line(&buffer.buf, buffer.last_cursor);
                    let line_start: usize = text::rope_line_to_char(&buffer.buf, line);
                    let v: &mut TextView = views.get_mut(vidx);
                    v.cursor = buffer.last_cursor;
                    v.prefered_x = buffer.last_cursor - line_start;
                    v.off = buffer.last_off;
                    v.buf = b;
                    enter_view(focus, lidx, cmd_line);
                    assert(Scene::new(*cmd_line, *nodes, *focus, *views, *buffers, *cwd)
                        =~= s.with_open_buffer(b));
                    Ok(())
                },
                None => match file.content {
                    Ok(found) => {
                        let b: BufferIdx = buffers.push(
                            Buffer::new(Some(file.path), 0, found),
                            file.resolved,
                        );
                        views.get_mut(vidx).buf = b;
                        enter_view(focus, lidx, cmd_line);
                        assert(Scene::new(*cmd_line, *nodes, *focus, *views, *buffers, *cwd)
                            =~= s.with_new_buffer(
                            Some(file.path@),
                            strings::option_text(file.resolved),
                            found,
                        ));
                        Ok(())
                    },
                    Err(e) => Err(EditorErr::Io(e)),
                },
            }
        },
        Some(_) => Err(EditorErr::InvalidBuffer),
        None => {
            let b: BufferIdx = buffers.push(Buffer::new(None, 0, Found::Missing), None);
            views.get_mut(vidx).buf = b;
            enter_view(focus, lidx, cmd_line);
            assert(Scene::new(*cmd_line, *nodes, *focus, *views, *buffers, *cwd)
                =~= s.with_new_buffer(None, None, Found::Missing));
            Ok(())
        },
    }
}

fn exec_buffer_switch(
    idx: BufferIdx,
    reply: Reply,
    cmd_line: &mut CmdLine,
    nodes: &Nodes,
    focus: &mut LeafIdx,
    views: &mut Views,
    buffers: &mut Buffers,
    cwd: &String,
) -> (res: Result<(), EditorErr>)
    requires
        old(buffers).wf(),
        Scene::new(*old(cmd_line), *nodes, *old(focus), *old(views), *old(buffers), *cwd).anchored(),
        Scene::new(
            *old(cmd_line),
            *nodes,
            *old(focus),
            *old(views),
            *old(buffers),
            *cwd,
        ).can_switch_buffer(Some(ArgValView::BufferIndex(idx.idx)), reply),
    ensures
        final(buffers).wf(),
        (
            Scene::new(
                *final(cmd_line),
                *nodes,
                *final(focus),
                *final(views),
                *final(buffers),
                *cwd,
            ),
            errors::stop_of(res),
        ) == Scene::new(
            *old(cmd_line),
            *nodes,
            *old(focus),
            *old(views),
            *old(buffers),
            *cwd,
        ).switch_buffer(idx, reply),
{
    let ghost s = Scene::new(*cmd_line, *nodes, *focus, *views, *buffers, *cwd);
    let lidx: LeafIdx = cmd_line.last_view.0;
    let vidx: ViewIdx = cmd_line.last_view.1;
    if idx.idx >= buffers.len() {
        return Err(EditorErr::InvalidBuffer);
    }
    if buffers.get(idx).check_flag(NON_NAVIGATABLE) {
        let mut msg: String = "buffer ".to_string();
        let n: String = strings::to_decimal(idx.idx);
        msg.append(n.as_str());
        msg.append(" is non navigatable");
        return Err(EditorErr::Msg(msg));
    }
    let view: TextView = *views.get(vidx);
    let ghost b0 = buffers@;
    let left: &mut Buffer = buffers.get_mut(view.buf);
    left.last_off = view.off;
    left.last_cursor = view.cursor;
    assert(buffers@ =~= s.left().buffers);
    let rect: Rect = nodes.get_leaf(lidx).rect;
    let ghost b1 = buffers@;
    let buffer: &mut Buffer = buffers.get_mut(idx);
    let empty: bool = text::rope_len_chars(&buffer.buf) == 0;
    if empty && buffer.file.is_some() {
        match reply {
            Reply::Reloaded(Some(Ok(content))) => {
                buffer.buf = text::rope_from_str(content.as_str());
            },
            Reply::Reloaded(Some(Err(e))) => {
                proof {
                    assert(b1.with(idx, b1.at(idx)) =~= b1);
                }
                return Err(EditorErr::Io(e));
            },
            _ => {},
        }
    }
    assert(buffer@ =~= s.left().reloaded_buffer(idx, reply));
    let len: usize = text::rope_len_chars(&buffer.buf);
    if buffer.last_cursor > len {
        buffer.last_cursor = len;
    }
    if buffer.last_off > len {
        buffer.last_off = len;
    }
    assert(buffer@ =~= scene::remembered(s.left().reloaded_buffer(idx, reply)));
    proof {
        text::lemma_line_at(buffer@.text, buffer.last_cursor as int);
    }
    let line: usize = text::rope_char_to_line(&buffer.buf, buffer.last_cursor);
    let line_start: usize = text::rope_line_to_char(&buffer.buf, line);
    let v: &mut TextView = views.get_mut(vidx);
    v.buf = idx;
    v.cursor = buffer.last_cursor;
    v.off = buffer.last_off;
    v.prefered_x = buffer.last_cursor - line_start;
    let ghost b = buffer@;
    assert(*v == scene::switched_view(view, idx, b));
    proof {
        let t = s.turned_to(idx, reply);
        assert(t.buffers.at(idx) == b);
        assert(t.view() == scene::switched_view(view, idx, b));
    }
    v.scroll(&rect, buffer);
    enter_view(focus, lidx, cmd_line);
    proof {
        let t = s.turned_to(idx, reply);
        assert(Scene::new(*cmd_line, *nodes, *focus, *views, *buffers, *cwd) =~= t.with_view(
            t.view().scrolled(t.buffers.at(idx).text, rect),
        ).entered(lidx));
    }
    Ok(())
}

fn exec_save(
    argument: Option<ArgVal>,
    reply: Reply,
    cmd_line: &mut CmdLine,
    nodes: &Nodes,
    focus: &mut LeafIdx,
    views: &Views,
    buffers: &mut Buffers,
    cwd: &String,
) -> (res: Result<(), EditorErr>)
    requires
        old(buffers).wf(),
        Scene::new(*old(cmd_line), *nodes, *old(focus), *views, *old(buffers), *cwd).anchored(),
        Scene::new(*old(cmd_line), *nodes, *old(focus), *views, *old(buffers), *cwd).can_save(
            commands::option_arg(argument),
            reply,
        ),
    ensures
        final(buffers).wf(),
        (
            Scene::new(*final(cmd_line), *nodes, *final(focus), *views, *final(buffers), *cwd),
            errors::stop_of(res),
        ) == Scene::new(*old(cmd_line), *nodes, *old(focus), *views, *old(buffers), *cwd).save(
            commands::option_arg(argument),
            reply,
        ),
{
    let ghost s = Scene::new(*cmd_line, *nodes, *focus, *views, *buffers, *cwd);
    let ghost arg = commands::option_arg(argument);
    let lidx: LeafIdx = cmd_line.last_view.0;
    let vidx: ViewIdx = cmd_line.last_view.1;
    let bidx: BufferIdx = views.get(vidx).buf;
    match save_stop(&argument, bidx, buffers.get(bidx)) {
        Some(e) => {
            return Err(e);
        },
        None => {},
    }
    match reply {
        Reply::Done(Err(e)) => {
            return Err(EditorErr::Io(e));
        },
        _ => {},
    }
    let buffer: &mut Buffer = buffers.get_mut(bidx);
    buffer.undo.clear();
    buffer.redo.clear();
    assert(buffers::edit_views(buffer.undo@) =~= Seq::empty());
    assert(buffers::edit_views(buffer.redo@) =~= Seq::empty());
    enter_view(focus, lidx, cmd_line);
    assert(Scene::new(*cmd_line, *nodes, *focus, *views, *buffers, *cwd) =~= s.saved());
    Ok(())
}

/// What forbids writing a buffer.
pub(crate) fn save_stop(argument: &Option<ArgVal>, bidx: BufferIdx, buffer: &Buffer) -> (res: Option<
    EditorErr,
>)
    ensures
        forall|s: Scene|
            s.buffer_idx() == bidx && s.buffers.at(bidx) == buffer@ ==> (match res {
                Some(e) => #[trigger] s.save_stop(commands::option_arg(*argument)) == Some(e@),
                None => s.save_stop(commands::option_arg(*argument)) is None,
            }),
{
    if buffer.check_flag(READ_ONLY) {
        return Some(EditorErr::ReadOnly(bidx));
    }
    if buffer.check_flag(IS_SCRATCH) {
        let mut msg: String = "cant save, buffer: ".to_string();
        let n: String = strings::to_decimal(bidx.idx);
        msg.append(n.as_str());
        msg.append(" is scratch");
        return Some(EditorErr::Msg(msg));
    }
    match argument {
        Some(ArgVal::FilePath(_)) => None,
        _ => {
            if buffer.file.is_none() {
                Some(EditorErr::Msg("new file needs name".to_string()))
            } else {
                None
            }
        },
    }
}

fn exec_divide(
    direction: Direction,
    cmd_line: &mut CmdLine,
    nodes: &mut Nodes,
    focus: &mut LeafIdx,
    views: &mut Views,
    buffers: &Buffers,
    cwd: &String,
)
    requires
        Scene::new(*old(cmd_line), *old(nodes), *old(focus), *old(views), *buffers, *cwd).anchored(),
        Scene::new(
            *old(cmd_line),
            *old(nodes),
            *old(focus),
            *old(views),
            *buffers,
            *cwd,
        ).can_divide(direction),
    ensures
        Scene::new(
            *final(cmd_line),
            *final(nodes),
            *final(focus),
            *final(views),
            *buffers,
            *cwd,
        ) == Scene::new(
            *old(cmd_line),
            *old(nodes),
            *old(focus),
            *old(views),
            *buffers,
            *cwd,
        ).divide(direction),
        final(nodes)@.linked(-1),
        old(nodes)@.wf() ==> final(nodes)@.wf(),
{
    let ghost s = Scene::new(*cmd_line, *nodes, *focus, *views, *buffers, *cwd);
    let lidx: LeafIdx = cmd_line.last_view.0;
    let vidx: ViewIdx = cmd_line.last_view.1;
    let parent: SplitIdx = nodes.get_leaf(lidx).parent;
    let at: usize = match nodes.position(parent, NodeIdx::Leaf(lidx)) {
        Some(at) => at,
        None => {
            return ;
        },
    };
    let ghost m0 = nodes@;
    proof {
        let c = m0.split(parent).children;
        assert(c[at as int] == NodeIdx::Leaf(lidx));
        assert(m0.children_linked(parent.0 as int));
        tree_pruning::lemma_remove_index(c, NodeIdx::Leaf(lidx));
        assert(at == s.place_in_parent());
        if m0.free_splits.contains(parent.0) {
            let k = choose|k: int|
                0 <= k < m0.free_splits.len() && m0.free_splits[k] == parent.0;
            assert(m0.splits[m0.free_splits[k] as int].children.len() == 0);
        }
    }
    let (l, new_parent) = nodes.new_split(
        Component::View(vidx),
        parent,
        direction,
        Constraints::new(),
        Anchors::new(),
    );
    let ghost m1 = nodes@;
    let other: ViewIdx = views.push(TextView::new(BufferIdx { idx: SCRATCH }));
    nodes.new_leaf(Component::View(other), new_parent, Constraints::new(), Anchors::new());
    let ghost m2 = nodes@;
    proof {
        let p = parent.0 as int;
        assert(m2.splits[p].children == m1.splits[p].children);
        assert(m2.splits[p].focus == m1.splits[p].focus);
        scene::lemma_swap_removed(m2, parent, at as int);
    }
    nodes.get_mut_split(parent).children.swap_remove(at);
    proof {
        assert(nodes@.split(parent).children =~= scene::swap_removed(
            m2.split(parent).children,
            at as int,
        ));
        assert(nodes@ == m2.with_swap_removed(parent, at as int));
    }
    let ghost m3 = nodes@;
    enter_view(focus, l, cmd_line);
    nodes.recalc(parent);
    proof {
        tree_layout::lemma_moved_linked(m3, nodes@, -1);
        tree_layout::lemma_linked_sound(m3, -1);
        if m0.wf() {
            tree_layout::lemma_moved_filled(m3, nodes@);
        }
        assert(Scene::new(*cmd_line, *nodes, *focus, *views, *buffers, *cwd) =~= s.divide(
            direction,
        ));
    }
}

/// Carries out a command of the command line.
pub fn exec_cmd(
    cmd: CmdVal,
    cmd_line: &mut CmdLine,
    nodes: &mut Nodes,
    focus: &mut LeafIdx,
    views: &mut Views,
    buffers: &mut Buffers,
    cwd: &mut String,
    reply: Reply,
) -> (res: Result<(), EditorErr>)
    requires
        old(buffers).wf(),
        Scene::new(
            *old(cmd_line),
            *old(nodes),
            *old(focus),
            *old(views),
            *old(buffers),
            *old(cwd),
        ).can_execute(cmd@, reply),
    ensures
        final(buffers).wf(),
        (
            Scene::new(
                *final(cmd_line),
                *final(nodes),
                *final(focus),
                *final(views),
                *final(buffers),
                *final(cwd),
            ),
            errors::stop_of(res),
        ) == Scene::new(
            *old(cmd_line),
            *old(nodes),
            *old(focus),
            *old(views),
            *old(buffers),
            *old(cwd),
        ).executed(cmd@, reply),
        old(nodes)@.wf() ==> final(nodes)@.wf(),
{
    let ghost s = Scene::new(*cmd_line, *nodes, *focus, *views, *buffers, *cwd);
    let lidx: LeafIdx = cmd_line.last_view.0;
    match cmd.cmd {
        Cmd::Cd => {
            match cmd.argument {
                None => Ok(()),
                Some(ArgVal::DirectoryPath(_)) => match reply {
                    Reply::Directory(DirFound::Directory(p)) => {
                        let msg: String = p.clone();
                        *cwd = p;
                        Err(EditorErr::Msg(msg))
                    },
                    Reply::Directory(DirFound::NotDirectory) => Err(
                        EditorErr::Msg("path is not directory".to_string()),
                    ),
                    Reply::Directory(DirFound::Missing) => Err(
                        EditorErr::Msg("path does not exist".to_string()),
                    ),
                    _ => Ok(()),
                },
                Some(_) => Err(EditorErr::Msg("needs to be directory path".to_string())),
            }
        },
        Cmd::Pwd => Err(EditorErr::Msg(cwd.clone())),
        Cmd::Quit => Err(exec_quit(cmd.force, buffers)),
        Cmd::BufferClose => exec_buffer_close(
            cmd.argument,
            cmd.force,
            cmd_line,
            nodes,
            focus,
            views,
            buffers,
            cwd,
        ),
        Cmd::Open => exec_open(cmd.argument, reply, cmd_line, nodes, focus, views, buffers, cwd),
        Cmd::ViewClose => {
            let parent: SplitIdx = nodes.get_leaf(lidx).parent;
            nodes.remove_child(parent, views, focus, NodeIdx::Leaf(lidx));
            let ghost m = nodes@;
            proof {
                assert(m.live(NodeIdx::Split(m.roots[0])));
                tree_layout::lemma_linked_sound(m, -1);
            }
            let root: SplitIdx = nodes.get_root(ROOT_TEXT_VIEW);
            let l: LeafIdx = nodes.follow_focus(NodeIdx::Split(root));
            enter_view(focus, l, cmd_line);
            Ok(())
        },
        Cmd::BufferSwitch => match cmd.argument {
            Some(ArgVal::BufferIndex(idx)) => exec_buffer_switch(
                BufferIdx { idx },
                reply,
                cmd_line,
                nodes,
                focus,
                views,
                buffers,
                cwd,
            ),
            _ => Ok(()),
        },
        Cmd::BufferList => {
            proof {
                assert(s.nodes.live(NodeIdx::Split(s.nodes.roots[2])));
            }
            let root: SplitIdx = nodes.get_root(ROOT_OVERLAY);
            let rows: u16 = #[verifier::truncate] (buffers.len() as u16) + 2;
            let constraints: Constraints = Constraints {
                min_height: None,
                max_height: Some(vec![Dimension::AddAbsolute(rows)]),
                min_width: None,
                max_width: Some(vec![Dimension::AddAbsolute(20)]),
            };
            assert(constraints@ == scene::buffer_list_constraints(s.buffers.data.len() as int)) by {
                let c = scene::buffer_list_constraints(s.buffers.data.len() as int);
                assert(constraints@.max_height->0 =~= c.max_height->0);
                assert(constraints@.max_width->0 =~= c.max_width->0);
            }
            *focus = nodes.new_leaf(Component::BufferList, root, constraints, Anchors::new());
            Ok(())
        },
        Cmd::Save => exec_save(cmd.argument, reply, cmd_line, nodes, focus, views, buffers, cwd),
        Cmd::SplitV => {
            exec_divide(Direction::Vertical, cmd_line, nodes, focus, views, buffers, cwd);
            Ok(())
        },
        Cmd::SplitH => {
            exec_divide(Direction::Horizontal, cmd_line, nodes, focus, views, buffers, cwd);
            Ok(())
        },
        Cmd::Split => {
            let parent: SplitIdx = nodes.get_leaf(lidx).parent;
            let vidx: ViewIdx = views.push(TextView::new(BufferIdx { idx: SCRATCH }));
            let l: LeafIdx = nodes.new_leaf(
                Component::View(vidx),
                parent,
                Constraints::new(),
                Anchors::new(),
            );
            enter_view(focus, l, cmd_line);
            Ok(())
        },
    }
}

} // verus!
