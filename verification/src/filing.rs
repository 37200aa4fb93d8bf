//! What the commands on buffers and directories come to: what is written, what
//! is opened, what is closed, and what is refused.
use vstd::prelude::*;
use crate::buffers::{
    BufferIdx, BufferView, Found, IS_SCRATCH, NEW_FILE, NON_NAVIGATABLE, READ_ONLY,
};
use crate::commands::{ArgValView, CmdValView};
use crate::errors::EditorErrView;
use crate::motion;
use crate::outcomes;
use crate::requests::{DirFound, FileFound, Reply, RequestView};
use crate::scene;
use crate::scene::Scene;
use crate::strings;
use crate::text;
use crate::views::TextView;

verus! {

/// The view that the command line was entered from.
pub open spec fn front(s: Scene) -> TextView {
    s.views[s.line.last_view.1.0 as int]
}

/// The buffer that this view shows.
pub open spec fn shown(s: Scene) -> BufferView {
    s.buffers.data[front(s).buf.idx as int]
}

/// The view is there, and so is its buffer.
pub open spec fn in_place(s: Scene) -> bool {
    &&& s.line.last_view.1.0 < s.views.len()
    &&& front(s).buf.idx < s.buffers.data.len()
}

/// All views but the one that the command line was entered from are the same.
pub open spec fn others_alone(s: Scene, t: Scene) -> bool {
    &&& t.views.len() == s.views.len()
    &&& forall|k: int|
        0 <= k < s.views.len() && k != s.line.last_view.1.0 ==> #[trigger] t.views[k] == s.views[k]
    &&& t.line.last_view == s.line.last_view
    &&& t.nodes == s.nodes
    &&& t.cwd == s.cwd
}

/// The focus is back on the view, and the command line is ready to be typed
/// in.
pub open spec fn back_in_view(s: Scene, t: Scene) -> bool {
    &&& t.focus == s.line.last_view.0
    &&& t.line.mode is Insert
    &&& t.line.cursor == 0
}

// ---- write

/// What is written is the whole text of the buffer in the view, to the path
/// that was given or, where none was, to the buffer's own.
pub proof fn law_write_whole(s: Scene, cmd: CmdValView, path: Seq<char>, t: Seq<char>)
    requires
        s.request_of(cmd) == RequestView::WriteFile(path, t),
    ensures
        cmd.cmd is Save,
        t == shown(s).text,
        cmd.argument matches Some(ArgValView::FilePath(p)) ==> path == p,
        cmd.argument is None ==> shown(s).file == Some(path),
{
}

/// The path makes no difference to what is written.
pub proof fn law_write_anywhere(s: Scene, a: CmdValView, b: CmdValView)
    requires
        s.request_of(a) is WriteFile,
        s.request_of(b) is WriteFile,
    ensures
        s.request_of(a)->WriteFile_1 == s.request_of(b)->WriteFile_1,
        a.argument == b.argument ==> s.request_of(a) == s.request_of(b),
{
}

/// A write is asked for exactly where the buffer is neither read-only nor the
/// one that belongs to no file, and there is a path to write to.
pub proof fn law_write_asked(s: Scene, cmd: CmdValView)
    requires
        cmd.cmd is Save,
        cmd.argument is None || cmd.argument matches Some(ArgValView::FilePath(_)),
    ensures
        s.request_of(cmd) is WriteFile <==> {
            &&& shown(s).flags & READ_ONLY == 0
            &&& shown(s).flags & IS_SCRATCH == 0
            &&& cmd.argument is Some || shown(s).file is Some
        },
        s.request_of(cmd) is WriteFile || s.request_of(cmd) is Nothing,
{
}

/// A write that is refused changes nothing and says why.
pub proof fn law_write_refused(s: Scene, cmd: CmdValView, reply: Reply)
    requires
        cmd.cmd is Save,
        cmd.argument is None || cmd.argument matches Some(ArgValView::FilePath(_)),
    ensures
        ({
            let (t, stop) = s.executed(cmd, reply);
            let read_only = shown(s).flags & READ_ONLY != 0;
            let scratch = shown(s).flags & IS_SCRATCH != 0;
            &&& read_only ==> t == s && stop == Some(EditorErrView::ReadOnly(front(s).buf))
            &&& !read_only && scratch ==> t == s && stop == Some(
                EditorErrView::Msg(
                    "cant save, buffer: "@ + strings::decimal(front(s).buf.idx as nat)
                        + " is scratch"@,
                ),
            )
            &&& !read_only && !scratch && cmd.argument is None && shown(s).file is None ==> t == s
                && stop == Some(EditorErrView::Msg("new file needs name"@))
        }),
{
}

/// A write that went well leaves the texts, the paths and the views as they
/// are, and the buffer without edits; one that failed changes nothing.
pub proof fn law_written(s: Scene, cmd: CmdValView, reply: Reply)
    requires
        in_place(s),
        cmd.cmd is Save,
        s.request_of(cmd) is WriteFile,
        reply is Done,
    ensures
        ({
            let (t, stop) = s.executed(cmd, reply);
            &&& reply matches Reply::Done(Err(e)) ==> t == s && stop == Some(EditorErrView::Io(e@))
            &&& reply matches Reply::Done(Ok(_)) ==> {
                &&& stop is None
                &&& t.views == s.views
                &&& others_alone(s, t)
                &&& back_in_view(s, t)
                &&& t.line.input == s.line.input
                &&& shown(t).undo.len() == 0
                &&& shown(t).redo.len() == 0
                &&& shown(t).text == shown(s).text
                &&& shown(t).file == shown(s).file
                &&& shown(t).flags == shown(s).flags
                &&& shown(t).last_cursor == shown(s).last_cursor
                &&& shown(t).last_off == shown(s).last_off
                &&& forall|k: int|
                    0 <= k < s.buffers.data.len() && k != front(s).buf.idx
                        ==> #[trigger] t.buffers.data[k] == s.buffers.data[k]
                &&& t.buffers.data.len() == s.buffers.data.len()
                &&& t.buffers.free == s.buffers.free
                &&& t.buffers.path_map == s.buffers.path_map
            }
        }),
{
}

// ---- what the other commands ask for

/// A directory is looked up under the name that was given, and so is a file.
/// A file is read again exactly where the buffer to turn to has a file and no
/// text, and may be shown.
pub proof fn law_asked(s: Scene, cmd: CmdValView)
    ensures
        cmd.cmd is Cd ==> match cmd.argument {
            Some(ArgValView::DirectoryPath(p)) => s.request_of(cmd) == RequestView::EnterDirectory(
                p,
            ),
            _ => s.request_of(cmd) is Nothing,
        },
        cmd.cmd is Open ==> match cmd.argument {
            Some(ArgValView::FilePath(p)) => s.request_of(cmd) == RequestView::OpenFile(p),
            _ => s.request_of(cmd) is Nothing,
        },
        cmd.cmd is BufferSwitch ==> match cmd.argument {
            Some(ArgValView::BufferIndex(i)) => {
                let b = s.buffers.data[i as int];
                if i < s.buffers.data.len() && b.flags & NON_NAVIGATABLE == 0 && b.text.len() == 0
                    && b.file is Some {
                    s.request_of(cmd) == RequestView::ReloadFile(b.file->0)
                } else {
                    s.request_of(cmd) is Nothing
                }
            },
            _ => s.request_of(cmd) is Nothing,
        },
        !(cmd.cmd is Cd || cmd.cmd is Open || cmd.cmd is BufferSwitch || cmd.cmd is Save)
            ==> s.request_of(cmd) is Nothing,
{
}

// ---- cd, pwd, quit

/// The directory that was changed to is the one that is then told, at once and
/// whenever it is asked for; where there is none, it stays what it was.
pub proof fn law_cd_pwd(s: Scene, cmd: CmdValView, found: DirFound, ask: CmdValView, reply: Reply)
    requires
        cmd.cmd is Cd,
        cmd.argument matches Some(ArgValView::DirectoryPath(_)),
        ask.cmd is Pwd,
    ensures
        ({
            let (t, stop) = s.executed(cmd, Reply::Directory(found));
            let (u, told) = t.executed(ask, reply);
            &&& u == t
            &&& told == Some(EditorErrView::Msg(t.cwd))
            &&& t == Scene { cwd: t.cwd, ..s }
            &&& match found {
                DirFound::Directory(p) => t.cwd == p@ && stop == told,
                DirFound::Missing => t == s && stop == Some(
                    EditorErrView::Msg("path does not exist"@),
                ),
                DirFound::NotDirectory => t == s && stop == Some(
                    EditorErrView::Msg("path is not directory"@),
                ),
            }
        }),
{
}

/// Without a directory the current one stays.
pub proof fn law_cd_nowhere(s: Scene, cmd: CmdValView, reply: Reply)
    requires
        cmd.cmd is Cd,
        !(cmd.argument matches Some(ArgValView::DirectoryPath(_))),
    ensures
        s.executed(cmd, reply).0 == s,
        cmd.argument is None ==> s.executed(cmd, reply).1 is None,
        cmd.argument is Some ==> s.executed(cmd, reply).1 == Some(
            EditorErrView::Msg("needs to be directory path"@),
        ),
{
}

/// Quitting changes nothing. It is held back, unless forced, as soon as any
/// buffer but the first has edits, and the message names these buffers.
pub proof fn law_quit_held_back(s: Scene, cmd: CmdValView, reply: Reply, d: Seq<int>)
    requires
        cmd.cmd is Quit,
        forall|i: int| #[trigger]
            d.contains(i) <==> 0 < i < s.buffers.data.len() && s.buffers.data[i].undo.len() > 0,
        forall|i: int, j: int| 0 <= i < j < d.len() ==> d[i] < d[j],
    ensures
        s.executed(cmd, reply).0 == s,
        cmd.force || d.len() == 0 ==> s.executed(cmd, reply).1 == Some(EditorErrView::Quit),
        !cmd.force && d.len() > 0 ==> s.executed(cmd, reply).1 == Some(
            EditorErrView::Msg("cant quit dirty buffers: "@ + "["@ + scene::joined(d) + "]"@),
        ),
{
    let data = s.buffers.data;
    let n = data.len() as int;
    let e = scene::dirty(data, n);
    lemma_dirty_ordered(data, n);
    assert forall|i: int| #[trigger] d.contains(i) <==> e.contains(i) by {
        scene::law_dirty(data, n, i);
    }
    lemma_same_order(d, e);
}

proof fn lemma_dirty_ordered(data: Seq<BufferView>, n: int)
    requires
        0 <= n <= data.len(),
    ensures
        forall|i: int, j: int|
            0 <= i < j < scene::dirty(data, n).len() ==> scene::dirty(data, n)[i] < scene::dirty(
                data,
                n,
            )[j],
    decreases n,
{
    if n > 0 {
        lemma_dirty_ordered(data, n - 1);
        let e = scene::dirty(data, n - 1);
        assert forall|i: int| 0 <= i < e.len() implies #[trigger] e[i] < n - 1 by {
            assert(e.contains(e[i]));
            scene::law_dirty(data, n - 1, e[i]);
        }
    }
}

/// Two lists in order that hold the same numbers are the same.
proof fn lemma_same_order(a: Seq<int>, b: Seq<int>)
    requires
        forall|i: int| #[trigger] a.contains(i) <==> b.contains(i),
        forall|i: int, j: int| 0 <= i < j < a.len() ==> a[i] < a[j],
        forall|i: int, j: int| 0 <= i < j < b.len() ==> b[i] < b[j],
    ensures
        a == b,
    decreases a.len(),
{
    if a.len() == 0 {
        if b.len() > 0 {
            assert(b.contains(b[0]));
            assert(a.contains(b[0]));
        }
        assert(a =~= b);
    } else {
        assert(a.contains(a.last()));
        assert(b.contains(a.last()));
        assert(b.contains(b.last()));
        assert(a.contains(b.last()));
        assert(a.last() == b.last());
        let (c, d) = (a.drop_last(), b.drop_last());
        assert forall|i: int| #[trigger] c.contains(i) <==> d.contains(i) by {
            lemma_without_last(a, i);
            lemma_without_last(b, i);
            assert(a.contains(i) <==> b.contains(i));
        }
        lemma_same_order(c, d);
        assert(a =~= c.push(a.last()));
        assert(b =~= d.push(b.last()));
    }
}

proof fn lemma_without_last(a: Seq<int>, i: int)
    requires
        a.len() > 0,
        forall|i: int, j: int| 0 <= i < j < a.len() ==> a[i] < a[j],
    ensures
        a.drop_last().contains(i) <==> a.contains(i) && i != a.last(),
{
    let c = a.drop_last();
    if c.contains(i) {
        let k = choose|k: int| 0 <= k < c.len() && c[k] == i;
        assert(a[k] == i);
    }
    if a.contains(i) && i != a.last() {
        let k = choose|k: int| 0 <= k < a.len() && a[k] == i;
        assert(c[k] == i);
    }
}

/// Numbers are written out one after the other, with a comma and a blank
/// between them.
pub proof fn law_joined(s: Seq<int>, n: int)
    requires
        n >= 0,
    ensures
        scene::joined(seq![n]) == strings::decimal(n as nat),
        s.len() > 0 ==> scene::joined(s.push(n)) == scene::joined(s) + ", "@ + strings::decimal(
            n as nat,
        ),
{
    assert(s.push(n).drop_last() =~= s);
}

// ---- open

/// Nothing in the view is left over from before: it is at the start.
pub open spec fn at_start(s: Scene, t: Scene) -> bool {
    let (v, u) = (front(s), front(t));
    &&& u.cursor == 0
    &&& u.off == 0
    &&& u.prefered_x == 0
    &&& u.mode == v.mode
    &&& u.selection == v.selection
}

/// All buffers but number `i` are the same, and those that were there still
/// are.
pub open spec fn other_buffers_alone(s: Scene, t: Scene, i: int) -> bool {
    &&& s.buffers.data.len() <= t.buffers.data.len()
    &&& forall|k: int|
        0 <= k < s.buffers.data.len() && k != i ==> #[trigger] t.buffers.data[k]
            == s.buffers.data[k]
}

/// The place for one more buffer: the one that has been free for longest, or a
/// new one behind all others where none is free.
pub open spec fn vacant(s: Scene, i: int) -> bool {
    if s.buffers.free.len() > 0 {
        i == s.buffers.free[0].idx && i < s.buffers.data.len()
    } else {
        i == s.buffers.data.len() && i <= usize::MAX
    }
}

/// The view shows one more buffer, from its start; it has no edits, and the
/// others are as they were.
pub open spec fn one_more(s: Scene, t: Scene, i: int) -> bool {
    &&& in_place(t)
    &&& front(t).buf.idx == i
    &&& at_start(s, t)
    &&& others_alone(s, t)
    &&& back_in_view(s, t)
    &&& t.line.input == s.line.input
    &&& other_buffers_alone(s, t, i)
    &&& t.buffers.data.len() == (if i < s.buffers.data.len() {
        s.buffers.data.len()
    } else {
        s.buffers.data.len() + 1
    })
    &&& shown(t).undo.len() == 0
    &&& shown(t).redo.len() == 0
    &&& shown(t).last_cursor == 0
    &&& shown(t).last_off == 0
    &&& s.buffers.free.len() == 0 ==> t.buffers.free.len() == 0
    &&& s.buffers.free.len() > 0 ==> t.buffers.free == s.buffers.free.skip(1)
}

pub proof fn lemma_flags()
    ensures
        (0u64 | READ_ONLY) & READ_ONLY != 0,
        (0u64 | READ_ONLY) & NEW_FILE == 0,
        (0u64 | READ_ONLY) & IS_SCRATCH == 0,
        (0u64 | READ_ONLY) & NON_NAVIGATABLE == 0,
        (0u64 | NEW_FILE) & NEW_FILE != 0,
        (0u64 | NEW_FILE) & READ_ONLY == 0,
        (0u64 | NEW_FILE) & IS_SCRATCH == 0,
        (0u64 | NEW_FILE) & NON_NAVIGATABLE == 0,
        0u64 & READ_ONLY == 0,
        0u64 & NEW_FILE == 0,
        0u64 & IS_SCRATCH == 0,
        0u64 & NON_NAVIGATABLE == 0,
{
    assert((0u64 | 1) & 1 != 0 && (0u64 | 1) & 4 == 0 && (0u64 | 1) & 2 == 0 && (0u64 | 1) & 8 == 0)
        by (bit_vector);
    assert((0u64 | 4) & 4 != 0 && (0u64 | 4) & 1 == 0 && (0u64 | 4) & 2 == 0 && (0u64 | 4) & 8 == 0)
        by (bit_vector);
    assert(0u64 & 1 == 0 && 0u64 & 2 == 0 && 0u64 & 4 == 0 && 0u64 & 8 == 0) by (bit_vector);
}

/// A file that is not open yet is shown in one more buffer: what it holds, or
/// nothing where it is not there, under its path, and found again by its
/// resolved path.
pub proof fn law_opened(s: Scene, cmd: CmdValView, f: FileFound, i: int)
    requires
        s.line.last_view.1.0 < s.views.len(),
        cmd.cmd is Open,
        cmd.argument matches Some(ArgValView::FilePath(_)),
        f.resolved matches Some(p) ==> !s.buffers.path_map.contains_key(p@),
        f.content is Ok,
        vacant(s, i),
    ensures
        ({
            let (t, stop) = s.executed(cmd, Reply::File(f));
            &&& stop is None
            &&& one_more(s, t, i)
            &&& shown(t).file == Some(f.path@)
            &&& match f.content->Ok_0 {
                Found::Content(c, read_only) => {
                    &&& shown(t).text == c@
                    &&& (shown(t).flags & READ_ONLY != 0) == read_only
                    &&& shown(t).flags & NEW_FILE == 0
                },
                Found::Missing => {
                    &&& shown(t).text.len() == 0
                    &&& shown(t).flags & READ_ONLY == 0
                    &&& shown(t).flags & NEW_FILE != 0
                },
            }
            &&& shown(t).flags & IS_SCRATCH == 0
            &&& shown(t).flags & NON_NAVIGATABLE == 0
            &&& match f.resolved {
                Some(p) => t.buffers.path_map == s.buffers.path_map.insert(p@, front(t).buf),
                None => t.buffers.path_map == s.buffers.path_map,
            }
        }),
{
    lemma_flags();
}

/// Without a path there is one more buffer, empty and without a file.
pub proof fn law_opened_nameless(s: Scene, cmd: CmdValView, reply: Reply, i: int)
    requires
        s.line.last_view.1.0 < s.views.len(),
        cmd.cmd is Open,
        cmd.argument is None,
        vacant(s, i),
    ensures
        ({
            let (t, stop) = s.executed(cmd, reply);
            &&& stop is None
            &&& one_more(s, t, i)
            &&& shown(t).file is None
            &&& shown(t).text.len() == 0
            &&& shown(t).flags & READ_ONLY == 0
            &&& shown(t).flags & NEW_FILE != 0
            &&& shown(t).flags & IS_SCRATCH == 0
            &&& shown(t).flags & NON_NAVIGATABLE == 0
            &&& t.buffers.path_map == s.buffers.path_map
        }),
{
    lemma_flags();
}

/// A file that is open already is shown where it was last left, in the buffer
/// that it has; no buffer changes.
pub proof fn law_opened_again(s: Scene, cmd: CmdValView, f: FileFound, line: int)
    requires
        s.line.last_view.1.0 < s.views.len(),
        cmd.cmd is Open,
        cmd.argument matches Some(ArgValView::FilePath(_)),
        f.resolved is Some,
        s.buffers.path_map.contains_key((f.resolved->0)@),
    ensures
        ({
            let (t, stop) = s.executed(cmd, Reply::File(f));
            let idx = s.buffers.path_map[(f.resolved->0)@];
            &&& stop is None
            &&& t.buffers == s.buffers
            &&& front(t).buf == idx
            &&& front(t).cursor == s.buffers.data[idx.idx as int].last_cursor
            &&& front(t).off == s.buffers.data[idx.idx as int].last_off
            &&& outcomes::on_line(
                s.buffers.data[idx.idx as int].text,
                front(t).cursor as int,
                line,
            ) && s.buffers.data[idx.idx as int].text.len() <= usize::MAX ==> front(t).prefered_x
                == front(t).cursor - text::line_start(s.buffers.data[idx.idx as int].text, line)
            &&& front(t).mode == front(s).mode
            &&& front(t).selection == front(s).selection
            &&& others_alone(s, t)
            &&& back_in_view(s, t)
            &&& t.line.input == s.line.input
        }),
{
    let idx = s.buffers.path_map[(f.resolved->0)@];
    let b = s.buffers.data[idx.idx as int];
    if outcomes::on_line(b.text, b.last_cursor as int, line) {
        motion::lemma_on_line(b.text, b.last_cursor as int, line);
        text::lemma_line_start(b.text, line);
    }
}

/// A file that cannot be read is not opened: the view stays on its buffer, at
/// the start of it, and the buffers stay as they are.
pub proof fn law_open_failed(s: Scene, cmd: CmdValView, f: FileFound)
    requires
        s.line.last_view.1.0 < s.views.len(),
        cmd.cmd is Open,
        cmd.argument matches Some(ArgValView::FilePath(_)),
        f.resolved matches Some(p) ==> !s.buffers.path_map.contains_key(p@),
        f.content is Err,
    ensures
        ({
            let (t, stop) = s.executed(cmd, Reply::File(f));
            &&& stop == Some(EditorErrView::Io((f.content->Err_0)@))
            &&& t.buffers == s.buffers
            &&& front(t).buf == front(s).buf
            &&& at_start(s, t)
            &&& others_alone(s, t)
            &&& t.line == s.line
            &&& t.focus == s.focus
        }),
{
}

/// A file that is opened twice is opened in one buffer: the second time there
/// is none to be added, and the text is not read again.
pub proof fn law_opened_twice(
    s: Scene,
    one: CmdValView,
    two: CmdValView,
    f: FileFound,
    g: FileFound,
    i: int,
)
    requires
        s.line.last_view.1.0 < s.views.len(),
        one.cmd is Open,
        two.cmd is Open,
        one.argument matches Some(ArgValView::FilePath(_)),
        two.argument matches Some(ArgValView::FilePath(_)),
        f.resolved is Some,
        g.resolved is Some,
        (f.resolved->0)@ == (g.resolved->0)@,
        !s.buffers.path_map.contains_key((f.resolved->0)@),
        f.content is Ok,
        vacant(s, i),
    ensures
        ({
            let t = s.executed(one, Reply::File(f)).0;
            let u = t.executed(two, Reply::File(g)).0;
            &&& u.buffers == t.buffers
            &&& front(u).buf == front(t).buf
            &&& shown(u) == shown(t)
        }),
{
    law_opened(s, one, f, i);
    let t = s.executed(one, Reply::File(f)).0;
    law_opened_again(t, two, g, 0);
}

// ---- buffer-close

/// The buffer that a command closes: the one that was named, or the one in
/// the view.
pub open spec fn condemned(s: Scene, cmd: CmdValView) -> int {
    match cmd.argument {
        Some(ArgValView::BufferIndex(i)) => i as int,
        _ => front(s).buf.idx as int,
    }
}

/// The first buffer and read-only ones are not closed, nor is one with edits
/// unless that is forced; nothing changes.
pub proof fn law_close_refused(s: Scene, cmd: CmdValView, reply: Reply)
    requires
        cmd.cmd is BufferClose,
    ensures
        ({
            let (t, stop) = s.executed(cmd, reply);
            let i = condemned(s, cmd);
            let b = s.buffers.data[i];
            &&& i == 0 ==> t == s && stop == Some(
                EditorErrView::Msg("will not close special buffer: 0"@),
            )
            &&& i != 0 && b.flags & READ_ONLY != 0 ==> t == s && stop == Some(
                EditorErrView::ReadOnly(BufferIdx { idx: i as usize }),
            )
            &&& i != 0 && b.flags & READ_ONLY == 0 && b.undo.len() > 0 && !cmd.force ==> t == s
                && stop == Some(EditorErrView::Dirty(BufferIdx { idx: i as usize }))
            &&& i != 0 && b.flags & READ_ONLY == 0 && (b.undo.len() == 0 || cmd.force)
                ==> stop is None
        }),
{
}

/// A buffer that is closed loses its text and its edits, no other buffer
/// changes, and its place is free, behind those that were free before. The view
/// turns to the start of the first buffer if it showed the one that is closed.
pub proof fn law_closed(s: Scene, cmd: CmdValView, reply: Reply)
    requires
        in_place(s),
        cmd.cmd is BufferClose,
        s.can_execute(cmd, reply),
        s.executed(cmd, reply).1 is None,
    ensures
        ({
            let t = s.executed(cmd, reply).0;
            let i = condemned(s, cmd);
            let (b, c) = (s.buffers.data[i], t.buffers.data[i]);
            &&& t.buffers.data.len() == s.buffers.data.len()
            &&& other_buffers_alone(s, t, i)
            &&& c.text.len() == 0
            &&& c.undo.len() == 0
            &&& c.redo.len() == 0
            &&& c.generation == b.generation + 1
            &&& c.file == b.file
            &&& c.flags == b.flags
            &&& t.buffers.free == s.buffers.free.push(BufferIdx { idx: i as usize })
            &&& t.buffers.path_map == s.buffers.path_map
            &&& others_alone(s, t)
            &&& back_in_view(s, t)
            &&& if i == front(s).buf.idx {
                front(t).buf.idx == 0 && at_start(s, t) && t.line.input.len() == 0
            } else {
                front(t) == front(s) && t.line.input == s.line.input
            }
        }),
{
}

/// The place of a buffer that is closed is taken by the next one that is
/// opened, where no other place is free.
pub proof fn law_place_taken_again(
    s: Scene,
    close: CmdValView,
    open: CmdValView,
    f: FileFound,
    reply: Reply,
)
    requires
        in_place(s),
        close.cmd is BufferClose,
        s.can_execute(close, reply),
        s.executed(close, reply).1 is None,
        s.buffers.free.len() == 0,
        open.cmd is Open,
        open.argument matches Some(ArgValView::FilePath(_)),
        f.resolved matches Some(p) ==> !s.buffers.path_map.contains_key(p@),
        f.content is Ok,
    ensures
        ({
            let t = s.executed(close, reply).0;
            let u = t.executed(open, Reply::File(f)).0;
            &&& front(u).buf.idx == condemned(s, close)
            &&& u.buffers.data.len() == s.buffers.data.len()
            &&& u.buffers.free.len() == 0
        }),
{
    law_closed(s, close, reply);
    let t = s.executed(close, reply).0;
    law_opened(t, open, f, condemned(s, close));
}

// ---- buffer-switch

/// A buffer that is not there, or that no view may show, is not turned to.
pub proof fn law_switch_refused(s: Scene, cmd: CmdValView, reply: Reply, i: usize)
    requires
        cmd.cmd is BufferSwitch,
        cmd.argument == Some(ArgValView::BufferIndex(i)),
        i >= s.buffers.data.len() || s.buffers.data[i as int].flags & NON_NAVIGATABLE != 0,
    ensures
        s.executed(cmd, reply).0 == s,
        i >= s.buffers.data.len() ==> s.executed(cmd, reply).1 == Some(
            EditorErrView::InvalidBuffer,
        ),
        i < s.buffers.data.len() ==> s.executed(cmd, reply).1 == Some(
            EditorErrView::Msg(
                "buffer "@ + strings::decimal(i as nat) + " is non navigatable"@,
            ),
        ),
{
}

/// A view that turns to another buffer shows it where it was last left, and
/// the one that it showed remembers where that was. No text changes.
pub proof fn law_switched(s: Scene, cmd: CmdValView, reply: Reply, i: usize, line: int)
    requires
        in_place(s),
        cmd.cmd is BufferSwitch,
        cmd.argument == Some(ArgValView::BufferIndex(i)),
        i < s.buffers.data.len(),
        i != front(s).buf.idx,
        s.buffers.data[i as int].flags & NON_NAVIGATABLE == 0,
        s.buffers.data[i as int].text.len() > 0,
        s.buffers.data[i as int].text.len() <= usize::MAX,
        outcomes::on_line(
            s.buffers.data[i as int].text,
            s.buffers.data[i as int].last_cursor as int,
            line,
        ),
    ensures
        ({
            let (t, stop) = s.executed(cmd, reply);
            let own = front(s).buf.idx as int;
            &&& stop is None
            &&& front(t).buf.idx == i
            &&& front(t).cursor == s.buffers.data[i as int].last_cursor
            &&& front(t).prefered_x == front(t).cursor - text::line_start(
                s.buffers.data[i as int].text,
                line,
            )
            &&& s.buffers.data[i as int].last_off <= s.buffers.data[i as int].text.len()
                ==> front(t).off == (TextView {
                cursor: s.buffers.data[i as int].last_cursor,
                off: s.buffers.data[i as int].last_off,
                ..front(s)
            }).scrolled(
                s.buffers.data[i as int].text,
                s.nodes.leaves[s.line.last_view.0.0 as int].rect,
            ).off
            &&& front(t).mode == front(s).mode
            &&& front(t).selection == front(s).selection
            &&& t.buffers.data[own].last_cursor == front(s).cursor
            &&& t.buffers.data[own].last_off == front(s).off
            &&& t.buffers.data.len() == s.buffers.data.len()
            &&& forall|k: int| 0 <= k < s.buffers.data.len() ==> {
                let (b, c) = (s.buffers.data[k], #[trigger] t.buffers.data[k]);
                &&& c.text == b.text
                &&& c.undo == b.undo
                &&& c.redo == b.redo
                &&& c.file == b.file
                &&& c.flags == b.flags
                &&& c.generation == b.generation
            }
            &&& t.buffers.free == s.buffers.free
            &&& t.buffers.path_map == s.buffers.path_map
            &&& others_alone(s, t)
            &&& back_in_view(s, t)
            &&& t.line.input == s.line.input
        }),
{
    motion::lemma_on_line(
        s.buffers.data[i as int].text,
        s.buffers.data[i as int].last_cursor as int,
        line,
    );
    text::lemma_line_start(s.buffers.data[i as int].text, line);
    let b = scene::remembered(s.left().reloaded_buffer(BufferIdx { idx: i }, reply));
    assert(b.text == s.buffers.data[i as int].text);
    let a = s.turned_to(BufferIdx { idx: i }, reply);
    assert(a.view() == scene::switched_view(s.view(), BufferIdx { idx: i }, b));
}

/// A buffer without text is read again from its file when a view turns to it.
/// A place behind the end of what was read becomes the end; where it cannot be
/// read, the view stays.
pub proof fn law_switched_and_read(
    s: Scene,
    cmd: CmdValView,
    read: Option<Result<String, String>>,
    i: usize,
)
    requires
        in_place(s),
        cmd.cmd is BufferSwitch,
        cmd.argument == Some(ArgValView::BufferIndex(i)),
        i < s.buffers.data.len(),
        i != front(s).buf.idx,
        s.buffers.data[i as int].flags & NON_NAVIGATABLE == 0,
        s.buffers.data[i as int].text.len() == 0,
        s.buffers.data[i as int].file is Some,
    ensures
        ({
            let (t, stop) = s.executed(cmd, Reply::Reloaded(read));
            let b = s.buffers.data[i as int];
            let c = t.buffers.data[i as int];
            &&& read matches Some(Err(e)) ==> {
                &&& stop == Some(EditorErrView::Io(e@))
                &&& t.views == s.views
                &&& c == b
            }
            &&& !(read matches Some(Err(_))) ==> {
                &&& stop is None
                &&& front(t).buf.idx == i
                &&& front(t).cursor <= c.text.len()
                &&& b.last_cursor <= c.text.len() ==> front(t).cursor == b.last_cursor
                &&& b.last_cursor > c.text.len() ==> front(t).cursor == c.text.len()
                &&& read matches Some(Ok(r)) ==> c.text == r@
                &&& read is None ==> c.text.len() == 0
                &&& c.undo == b.undo
                &&& c.redo == b.redo
                &&& back_in_view(s, t)
            }
            &&& forall|k: int| 0 <= k < s.buffers.data.len() && k != i ==> {
                let (b, c) = (s.buffers.data[k], #[trigger] t.buffers.data[k]);
                &&& c.text == b.text
                &&& c.undo == b.undo
                &&& c.file == b.file
            }
        }),
{
    let b = scene::remembered(
        s.left().reloaded_buffer(BufferIdx { idx: i }, Reply::Reloaded(read)),
    );
    let a = s.turned_to(BufferIdx { idx: i }, Reply::Reloaded(read));
    assert(a.view() == scene::switched_view(s.view(), BufferIdx { idx: i }, b));
}

} // verus!
