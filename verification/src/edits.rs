//! Changing the text of a buffer through a view, and taking changes back.
use vstd::prelude::*;
use vstd::string::*;
use ropey::Rope;
use crate::buffers;
use crate::buffers::{Buffer, BufferView, Edit, EditView, Found};
use crate::divide;
use crate::errors;
use crate::errors::{EditorErr, EditorErrView};
use crate::layout::Rect;
use crate::motion;
use crate::strings;
use crate::text;
use crate::views::{Mode, TextView};

verus! {

/// The record of edits with one more character typed at `cursor`: it joins the
/// last edit where that put in text around the cursor.
pub open spec fn with_typed(undo: Seq<EditView>, cursor: int, c: char) -> Seq<EditView> {
    if undo.len() > 0 {
        match undo.last() {
            EditView::Insert { idx, text } if idx <= cursor <= idx + text.len() => undo.update(
                undo.len() - 1,
                EditView::Insert { idx, text: text.insert(cursor - idx, c) },
            ),
            _ => undo.push(EditView::Insert { idx: cursor, text: seq![c] }),
        }
    } else {
        undo.push(EditView::Insert { idx: cursor, text: seq![c] })
    }
}

/// The record of edits with the character in front of `cursor` taken out: it
/// joins the last edit where that took out the text from the cursor on.
pub open spec fn with_erased(undo: Seq<EditView>, cursor: int, c: char) -> Seq<EditView> {
    if undo.len() > 0 {
        match undo.last() {
            EditView::Delete { idx, text } if idx == cursor => undo.update(
                undo.len() - 1,
                EditView::Delete { idx: cursor - 1, text: seq![c] + text },
            ),
            _ => undo.push(EditView::Delete { idx: cursor - 1, text: seq![c] }),
        }
    } else {
        undo.push(EditView::Delete { idx: cursor - 1, text: seq![c] })
    }
}

/// The place of the last edit can be added up.
pub open spec fn last_edit_fits(undo: Seq<EditView>) -> bool {
    undo.len() > 0 ==> match undo.last() {
        EditView::Insert { idx, text } => idx + text.len() <= usize::MAX,
        EditView::Delete { .. } => true,
    }
}

pub open spec fn edit_at(e: EditView) -> int {
    match e {
        EditView::Insert { idx, .. } => idx,
        EditView::Delete { idx, .. } => idx,
    }
}

/// The edit can be taken back in a text of the given length.
pub open spec fn can_revert(e: EditView, len: int) -> bool {
    match e {
        EditView::Insert { idx, text } => 0 <= idx && idx + text.len() <= len,
        EditView::Delete { idx, .. } => 0 <= idx <= len,
    }
}

/// The text without the edit.
pub open spec fn reverted(t: Seq<char>, e: EditView) -> Seq<char> {
    match e {
        EditView::Insert { idx, text } => t.take(idx) + t.skip(idx + text.len()),
        EditView::Delete { idx, text } => t.take(idx) + text + t.skip(idx),
    }
}

/// The edit that takes an edit back.
pub open spec fn inverse(e: EditView) -> EditView {
    match e {
        EditView::Insert { idx, text } => EditView::Delete { idx, text },
        EditView::Delete { idx, text } => EditView::Insert { idx, text },
    }
}

/// A view and the buffer it shows.
#[verifier::ext_equal]
pub struct Pane {
    pub view: TextView,
    pub buffer: BufferView,
}

impl Pane {
    pub open spec fn new(view: TextView, buffer: BufferView) -> Pane {
        Pane { view, buffer }
    }

    pub open spec fn with_buffer(self, buffer: BufferView) -> Pane {
        Pane { buffer, ..self }
    }

    pub open spec fn with_view(self, view: TextView) -> Pane {
        Pane { view, ..self }
    }

    /// The buffer with a character typed at the cursor.
    pub open spec fn typed_buffer(self, c: char) -> BufferView {
        BufferView {
            redo: Seq::empty(),
            undo: with_typed(self.buffer.undo, self.view.cursor as int, c),
            ..self.buffer.with_inserted(self.view.off, self.view.cursor, seq![c])
        }
    }

    /// A character typed at the cursor, which goes one place on but stays in
    /// front of the last character of the line.
    pub open spec fn typed(self, c: char) -> Pane {
        let b = self.typed_buffer(c);
        let line = text::line_of(b.text, self.view.cursor as int);
        let start = text::line_start(b.text, line);
        let column = motion::least(
            self.view.cursor + 1 - start,
            divide::monus(text::line_len(b.text, line), 1),
        );
        Pane {
            view: TextView {
                selection: None,
                cursor: (start + column) as usize,
                prefered_x: column as usize,
                ..self.view
            },
            buffer: b,
        }
    }

    pub open spec fn can_type(self) -> bool {
        &&& self.view.cursor <= self.buffer.text.len()
        &&& self.view.cursor < usize::MAX
        &&& last_edit_fits(self.buffer.undo)
    }

    /// A line break typed at the cursor, before the view scrolls: the cursor
    /// is at the start of the next line.
    pub open spec fn broken(self) -> Pane {
        let b = self.typed_buffer('\n');
        let line = text::line_of(b.text, self.view.cursor as int) + 1;
        Pane {
            view: self.view.unselected().at(
                text::line_start(b.text, motion::least(line, text::line_count(b.text))),
            ),
            buffer: b,
        }
    }

    pub open spec fn line_broken(self, rect: Rect) -> Pane {
        let p = self.broken();
        p.with_view(p.view.scrolled(p.buffer.text, rect))
    }

    pub open spec fn can_break(self, rect: Rect) -> bool {
        &&& self.can_type()
        &&& self.broken().view.can_scroll(self.broken().buffer.text, rect)
    }

    /// The buffer without the character in front of the cursor.
    pub open spec fn erased_buffer(self) -> BufferView {
        let b = self.buffer;
        let cursor = self.view.cursor as int;
        if cursor == 0 {
            BufferView { redo: Seq::empty(), ..b }
        } else {
            BufferView {
                redo: Seq::empty(),
                undo: with_erased(b.undo, cursor, b.text[cursor - 1]),
                text: b.text.remove(cursor - 1),
                ..b
            }
        }
    }

    /// The character in front of the cursor taken out, before the view
    /// scrolls. The cursor goes there, but stays in front of the last
    /// character of the text.
    pub open spec fn shortened(self) -> Pane {
        let b = self.erased_buffer();
        let cursor = self.view.cursor as int;
        if cursor == 0 {
            self.with_buffer(b)
        } else {
            Pane {
                view: TextView {
                    prefered_x: self.view.at(cursor - 1).column(self.buffer.text) as usize,
                    ..self.view.at(
                        motion::least(cursor - 1, divide::monus(b.text.len() as int, 1)),
                    )
                },
                buffer: b,
            }
        }
    }

    pub open spec fn erased(self, rect: Rect) -> Pane {
        let p = self.shortened();
        if self.view.cursor == 0 {
            p
        } else {
            p.with_view(p.view.scrolled(p.buffer.text, rect))
        }
    }

    pub open spec fn can_erase(self, rect: Rect) -> bool {
        self.view.cursor > 0 ==> {
            &&& self.view.cursor <= self.buffer.text.len()
            &&& self.shortened().view.can_scroll(self.shortened().buffer.text, rect)
        }
    }

    /// Characters taken out one after the other.
    pub open spec fn erased_times(self, rect: Rect, n: nat) -> Pane
        decreases n,
    {
        if n == 0 {
            self
        } else {
            self.erased_times(rect, (n - 1) as nat).erased(rect)
        }
    }

    pub open spec fn can_erase_times(self, rect: Rect, n: nat) -> bool
        decreases n,
    {
        n == 0 || {
            &&& self.can_erase_times(rect, (n - 1) as nat)
            &&& self.erased_times(rect, (n - 1) as nat).can_erase(rect)
        }
    }

    /// Where taking out starts: at the end of the selection, or, in normal
    /// mode, behind the character at the cursor.
    pub open spec fn before_deletion(self) -> Pane {
        let len = self.buffer.text.len() as int;
        match self.view.selection {
            Some(sel) => self.with_view(
                TextView {
                    mode: Mode::Normal,
                    ..self.view.at(motion::least(sel.1 as int, len))
                },
            ),
            None => if self.view.mode is Normal {
                self.with_view(self.view.at(motion::least(self.view.cursor + 1, len)))
            } else {
                self
            },
        }
    }

    pub open spec fn deletion_count(self) -> nat {
        match self.view.selection {
            Some(sel) => divide::monus(sel.1 as int, sel.0 as int) as nat,
            None => 1,
        }
    }

    /// The selection, or one character, taken out.
    pub open spec fn deleted(self, rect: Rect) -> Pane {
        let p = self.before_deletion().erased_times(rect, self.deletion_count());
        match self.view.selection {
            Some(_) => p.with_view(p.view.unselected()),
            None => p,
        }
    }

    pub open spec fn can_delete(self, rect: Rect) -> bool {
        &&& self.before_deletion().can_erase_times(rect, self.deletion_count())
        &&& self.view.selection is None && self.view.mode is Normal ==> self.view.cursor
            < usize::MAX
    }

    /// The cursor at the place of an edit, at its column.
    pub open spec fn placed_at(self, at: int) -> Pane {
        let v = self.view.at(at);
        self.with_view(TextView { prefered_x: v.column(self.buffer.text) as usize, ..v })
    }

    /// The last edit taken back.
    pub open spec fn undone(self) -> Pane {
        let b = self.buffer;
        if b.undo.len() == 0 {
            self.with_view(self.view.unselected())
        } else {
            let e = b.undo.last();
            Pane {
                view: self.view.unselected(),
                buffer: BufferView {
                    undo: b.undo.drop_last(),
                    redo: b.redo.push(inverse(e)),
                    text: reverted(b.text, e),
                    ..b
                },
            }.placed_at(edit_at(e))
        }
    }

    pub open spec fn undo_stop(self) -> Option<EditorErrView> {
        if self.buffer.undo.len() == 0 {
            Some(EditorErrView::Msg("undo stack is empty"@))
        } else {
            None
        }
    }

    pub open spec fn can_undo(self) -> bool {
        self.buffer.undo.len() > 0 ==> can_revert(
            self.buffer.undo.last(),
            self.buffer.text.len() as int,
        )
    }

    /// The edit that was taken back last made again, before the view scrolls.
    pub open spec fn remade(self) -> Pane {
        let b = self.buffer;
        if b.redo.len() == 0 {
            self.with_view(self.view.unselected())
        } else {
            let e = b.redo.last();
            Pane {
                view: self.view.unselected(),
                buffer: BufferView {
                    redo: b.redo.drop_last(),
                    undo: b.undo.push(inverse(e)),
                    text: reverted(b.text, e),
                    ..b
                },
            }.placed_at(edit_at(e))
        }
    }

    pub open spec fn redone(self, rect: Rect) -> Pane {
        let p = self.remade();
        if self.buffer.redo.len() == 0 {
            p
        } else {
            p.with_view(p.view.scrolled(p.buffer.text, rect))
        }
    }

    pub open spec fn redo_stop(self) -> Option<EditorErrView> {
        if self.buffer.redo.len() == 0 {
            Some(EditorErrView::Msg("redo stack is empty"@))
        } else {
            None
        }
    }

    pub open spec fn can_redo(self, rect: Rect) -> bool {
        self.buffer.redo.len() > 0 ==> {
            &&& can_revert(self.buffer.redo.last(), self.buffer.text.len() as int)
            &&& self.remade().view.can_scroll(self.remade().buffer.text, rect)
        }
    }

    /// The place behind the cursor, within the text.
    pub open spec fn paste_at(self) -> int {
        motion::least(self.view.cursor + 1, self.buffer.text.len() as int)
    }

    /// The cursor moved on by a text that was pasted, and the paste recorded.
    pub open spec fn pasted(self, s: Seq<char>) -> Pane {
        Pane {
            view: self.view.at(self.view.cursor + s.len()).unselected(),
            buffer: BufferView {
                undo: self.buffer.undo.push(EditView::Insert { idx: self.paste_at(), text: s }),
                ..self.buffer
            },
        }
    }

    /// A text from outside put in behind the cursor.
    pub open spec fn clipboard_pasted(self, s: Seq<char>) -> Pane {
        self.with_buffer(
            self.buffer.with_inserted(self.view.off, self.paste_at() as usize, s),
        ).with_view(self.view.at(self.view.cursor + s.len()).unselected()).recorded(
            EditView::Insert { idx: self.paste_at(), text: s },
        )
    }

    pub open spec fn recorded(self, e: EditView) -> Pane {
        self.with_buffer(BufferView { undo: self.buffer.undo.push(e), ..self.buffer })
    }

    pub open spec fn can_paste(self, s: Seq<char>) -> bool {
        self.view.cursor < usize::MAX && self.view.cursor + s.len() <= usize::MAX
    }
}

/// What a selection holds, whichever of its ends comes first.
pub open spec fn selected(sel: (usize, usize), t: Seq<char>) -> Seq<char> {
    if sel.0 > sel.1 {
        t.subrange(sel.1 as int, sel.0 as int)
    } else {
        t.subrange(sel.0 as int, sel.1 as int)
    }
}

pub open spec fn selection_fits(sel: (usize, usize), t: Seq<char>) -> bool {
    sel.0 <= t.len() && sel.1 <= t.len()
}

proof fn lemma_edits_push(s: Seq<Edit>, e: Edit)
    ensures
        buffers::edit_views(s.push(e)) == buffers::edit_views(s).push(e@),
{
    assert(buffers::edit_views(s.push(e)) =~= buffers::edit_views(s).push(e@));
}

proof fn lemma_edits_update(s: Seq<Edit>, i: int, e: Edit)
    requires
        0 <= i < s.len(),
    ensures
        buffers::edit_views(s.update(i, e)) == buffers::edit_views(s).update(i, e@),
{
    assert(buffers::edit_views(s.update(i, e)) =~= buffers::edit_views(s).update(i, e@));
}

proof fn lemma_edits_pop(s: Seq<Edit>)
    requires
        s.len() > 0,
    ensures
        buffers::edit_views(s.drop_last()) == buffers::edit_views(s).drop_last(),
        buffers::edit_views(s).last() == s.last()@,
{
    assert(buffers::edit_views(s.drop_last()) =~= buffers::edit_views(s).drop_last());
}

fn one_char(c: char) -> (s: String)
    ensures
        s@ == seq![c],
{
    let mut s: String = String::new();
    s.push(c);
    assert(s@ =~= seq![c]);
    s
}

/// Records that a character is typed at `cursor`.
fn record_typed(undo: &mut Vec<Edit>, cursor: usize, c: char)
    requires
        last_edit_fits(buffers::edit_views(old(undo)@)),
    ensures
        buffers::edit_views(final(undo)@) == with_typed(
            buffers::edit_views(old(undo)@),
            cursor as int,
            c,
        ),
{
    let ghost before = undo@;
    let n: usize = undo.len();
    if n > 0 {
        let joined: Option<Edit> = match &undo[n - 1] {
            Edit::Insert { idx, text } => {
                let len: usize = text.as_str().unicode_len();
                if *idx <= cursor && cursor <= *idx + len {
                    let text: String = strings::with_char(text.as_str(), cursor - *idx, c);
                    Some(Edit::Insert { idx: *idx, text })
                } else {
                    None
                }
            },
            Edit::Delete { .. } => None,
        };
        match joined {
            Some(e) => {
                proof {
                    lemma_edits_update(before, n - 1, e);
                }
                undo[n - 1] = e;
                return ;
            },
            None => {},
        }
    }
    let e: Edit = Edit::Insert { idx: cursor, text: one_char(c) };
    proof {
        lemma_edits_push(before, e);
    }
    undo.push(e);
}

/// Records that the character in front of `cursor` is taken out.
fn record_erased(undo: &mut Vec<Edit>, cursor: usize, c: char)
    requires
        cursor > 0,
    ensures
        buffers::edit_views(final(undo)@) == with_erased(
            buffers::edit_views(old(undo)@),
            cursor as int,
            c,
        ),
{
    let ghost before = undo@;
    let n: usize = undo.len();
    if n > 0 {
        let joined: Option<Edit> = match &undo[n - 1] {
            Edit::Insert { .. } => None,
            Edit::Delete { idx, text } => {
                if *idx == cursor {
                    let text: String = strings::with_char(text.as_str(), 0, c);
                    Some(Edit::Delete { idx: cursor - 1, text })
                } else {
                    None
                }
            },
        };
        match joined {
            Some(e) => {
                proof {
                    lemma_edits_update(before, n - 1, e);
                    let t = before[n - 1]->Delete_text@;
                    assert(t.insert(0, c) =~= seq![c] + t);
                }
                undo[n - 1] = e;
                return ;
            },
            None => {},
        }
    }
    let e: Edit = Edit::Delete { idx: cursor - 1, text: one_char(c) };
    proof {
        lemma_edits_push(before, e);
    }
    undo.push(e);
}

/// Types a character at the cursor.
pub fn insert_char(view: &mut TextView, buffer: &mut Buffer, c: char)
    requires
        Pane::new(*old(view), old(buffer)@).can_type(),
    ensures
        Pane::new(*final(view), final(buffer)@) == Pane::new(*old(view), old(buffer)@).typed(c),
{
    let ghost p = Pane::new(*view, buffer@);
    buffer.redo.clear();
    view.selection = None;
    record_typed(&mut buffer.undo, view.cursor, c);
    buffer.insert(view.off, view.cursor, c);
    assert(buffer@ =~= p.typed_buffer(c));
    let ghost t = buffer@.text;
    proof {
        text::lemma_line_at(t, view.cursor as int);
        text::lemma_line_starts_ordered(
            t,
            text::line_of(t, view.cursor as int),
            text::line_of(t, view.cursor as int) + 1,
        );
    }
    let line: usize = text::rope_char_to_line(&buffer.buf, view.cursor);
    let line_start: usize = text::rope_line_to_char(&buffer.buf, line);
    let line_len: usize = text::rope_line_len(&buffer.buf, line);
    let _total: usize = text::rope_len_chars(&buffer.buf);
    let col: usize = view.cursor + 1 - line_start;
    let last: usize = line_len.saturating_sub(1);
    let col: usize = if col <= last {
        col
    } else {
        last
    };
    view.cursor = line_start + col;
    view.prefered_x = col;
}

/// Types a line break at the cursor.
pub fn new_line(view: &mut TextView, buffer: &mut Buffer, rect: &Rect)
    requires
        Pane::new(*old(view), old(buffer)@).can_break(*rect),
    ensures
        Pane::new(*final(view), final(buffer)@) == Pane::new(
            *old(view),
            old(buffer)@,
        ).line_broken(*rect),
{
    let ghost p = Pane::new(*view, buffer@);
    view.selection = None;
    buffer.redo.clear();
    buffer.insert(view.off, view.cursor, '\n');
    record_typed(&mut buffer.undo, view.cursor, '\n');
    assert(buffer@ =~= p.typed_buffer('\n'));
    let ghost t = buffer@.text;
    proof {
        text::lemma_line_at(t, view.cursor as int);
    }
    let len_lines: usize = text::rope_len_lines(&buffer.buf);
    let line: usize = text::rope_char_to_line(&buffer.buf, view.cursor) + 1;
    let line: usize = if line <= len_lines {
        line
    } else {
        len_lines
    };
    view.cursor = text::rope_line_to_char(&buffer.buf, line);
    view.scroll(rect, buffer);
}

/// Takes out the character in front of the cursor, without scrolling.
fn shorten(view: &mut TextView, buffer: &mut Buffer)
    requires
        old(view).cursor <= old(buffer)@.text.len(),
    ensures
        Pane::new(*final(view), final(buffer)@) == Pane::new(*old(view), old(buffer)@).shortened(),
{
    let ghost p = Pane::new(*view, buffer@);
    let ghost t = buffer@.text;
    buffer.redo.clear();
    if view.cursor != 0 {
        let cursor: usize = view.cursor;
        let del: String = text::rope_slice(&buffer.buf, cursor - 1, cursor);
        let c: char = del.as_str().get_char(0);
        record_erased(&mut buffer.undo, cursor, c);
        proof {
            text::lemma_line_at(t, cursor as int);
            text::lemma_line_at(t, cursor - 1);
            lemma_column_before(t, cursor as int);
        }
        let line: usize = text::rope_char_to_line(&buffer.buf, cursor);
        let line_start: usize = text::rope_line_to_char(&buffer.buf, line);
        let prev: usize = line.saturating_sub(1);
        let prev_start: usize = text::rope_line_to_char(&buffer.buf, prev);
        let prev_len: usize = text::rope_line_len(&buffer.buf, prev).saturating_sub(1);
        text::rope_remove(&mut buffer.buf, cursor - 1, cursor);
        assert(buffer@.text =~= t.remove(cursor - 1));
        assert(buffer@ =~= p.erased_buffer());
        if cursor > line_start {
            let col: usize = cursor - line_start - 1;
            view.prefered_x = col;
            view.cursor = line_start + col;
        } else {
            view.prefered_x = prev_len;
            view.cursor = prev_start + prev_len;
        }
        let last: usize = text::rope_len_chars(&buffer.buf).saturating_sub(1);
        if view.cursor > last {
            view.cursor = last;
        }
        assert(*view == p.shortened().view);
    } else {
        assert(buffer@ =~= p.erased_buffer());
    }
}

/// Takes out the character in front of the cursor.
fn backspace(view: &mut TextView, buffer: &mut Buffer, rect: &Rect)
    requires
        Pane::new(*old(view), old(buffer)@).can_erase(*rect),
    ensures
        Pane::new(*final(view), final(buffer)@) == Pane::new(*old(view), old(buffer)@).erased(
            *rect,
        ),
{
    let first: bool = view.cursor == 0;
    shorten(view, buffer);
    if !first {
        view.scroll(rect, buffer);
    }
}

/// The place in front of a position: in its line, or, from the start of a
/// line, the last character of the line before.
proof fn lemma_column_before(t: Seq<char>, i: int)
    requires
        0 < i <= t.len(),
    ensures
        ({
            let line = text::line_of(t, i);
            let start = text::line_start(t, line);
            if i > start {
                text::line_of(t, i - 1) == line
            } else {
                let prev = line - 1;
                &&& line > 0
                &&& text::line_of(t, i - 1) == prev
                &&& text::line_start(t, prev) + text::line_len(t, prev) - 1 == i - 1
                &&& text::line_len(t, prev) >= 1
            }
        }),
{
    let line = text::line_of(t, i);
    text::lemma_line_at(t, i);
    text::lemma_line_at(t, i - 1);
    text::lemma_line_holds(t, i - 1, line);
    text::lemma_line_of_monotonic(t, i - 1, i);
    text::lemma_line_start(t, line);
    text::lemma_first_line(t);
}

/// Takes out the selection, or one character.
pub fn delete(view: &mut TextView, buffer: &mut Buffer, rect: &Rect)
    requires
        Pane::new(*old(view), old(buffer)@).can_delete(*rect),
    ensures
        Pane::new(*final(view), final(buffer)@) == Pane::new(*old(view), old(buffer)@).deleted(
            *rect,
        ),
{
    let ghost p = Pane::new(*view, buffer@);
    let ghost n = p.deletion_count();
    match view.selection {
        Some(sel) => {
            let len: usize = text::rope_len_chars(&buffer.buf);
            view.cursor = if sel.1 <= len {
                sel.1
            } else {
                len
            };
            view.mode = Mode::Normal;
            let ghost q = p.before_deletion();
            let mut i: usize = sel.0;
            while i < sel.1
                invariant
                    sel.0 <= i,
                    i <= sel.1 || i == sel.0,
                    n == divide::monus(sel.1 as int, sel.0 as int),
                    q.can_erase_times(*rect, n),
                    Pane::new(*view, buffer@) == q.erased_times(*rect, (i - sel.0) as nat),
                decreases sel.1 - i,
            {
                proof {
                    lemma_can_erase_fewer(q, *rect, (i - sel.0 + 1) as nat, n);
                }
                backspace(view, buffer, rect);
                i = i + 1;
            }
            view.selection = None;
        },
        None => {
            if view.mode == Mode::Normal {
                let len: usize = text::rope_len_chars(&buffer.buf);
                view.cursor = if view.cursor + 1 <= len {
                    view.cursor + 1
                } else {
                    len
                };
            }
            let ghost q = p.before_deletion();
            assert(Pane::new(*view, buffer@) == q);
            assert(q.erased_times(*rect, 0) == q);
            assert(q.can_erase_times(*rect, 1));
            assert(q.erased_times(*rect, 1) == q.erased(*rect));
            backspace(view, buffer, rect);
        },
    }
}

proof fn lemma_can_erase_fewer(p: Pane, rect: Rect, k: nat, n: nat)
    requires
        k <= n,
        p.can_erase_times(rect, n),
    ensures
        p.can_erase_times(rect, k),
    decreases n,
{
    if k < n {
        lemma_can_erase_fewer(p, rect, k, (n - 1) as nat);
    }
}

/// Makes an edit undone in a text.
fn revert_text(rope: &mut Rope, edit: &Edit)
    requires
        can_revert(edit@, text::rope_text(*old(rope)).len() as int),
    ensures
        text::rope_text(*final(rope)) == reverted(text::rope_text(*old(rope)), edit@),
{
    match edit {
        Edit::Insert { idx, text } => {
            let _total: usize = text::rope_len_chars(rope);
            let len: usize = text.as_str().unicode_len();
            text::rope_remove(rope, *idx, *idx + len);
        },
        Edit::Delete { idx, text } => {
            text::rope_insert(rope, *idx, text.as_str());
        },
    }
}

/// The place of an edit.
fn place_of(edit: &Edit) -> (at: usize)
    ensures
        at == edit_at(edit@),
{
    match edit {
        Edit::Insert { idx, .. } => *idx,
        Edit::Delete { idx, .. } => *idx,
    }
}

/// Makes an edit undone, whichever way it goes, and puts the cursor there.
fn revert(view: &mut TextView, buffer: &mut Buffer, edit: &Edit)
    requires
        can_revert(edit@, old(buffer)@.text.len() as int),
    ensures
        Pane::new(*final(view), final(buffer)@) == Pane::new(
            *old(view),
            BufferView { text: reverted(old(buffer)@.text, edit@), ..old(buffer)@ },
        ).placed_at(edit_at(edit@)),
{
    let ghost t = buffer@.text;
    let ghost b = buffer@;
    revert_text(&mut buffer.buf, edit);
    view.cursor = place_of(edit);
    assert(buffer@ =~= BufferView { text: reverted(t, edit@), ..b });
    proof {
        text::lemma_line_at(buffer@.text, view.cursor as int);
    }
    let line: usize = text::rope_char_to_line(&buffer.buf, view.cursor);
    let line_start: usize = text::rope_line_to_char(&buffer.buf, line);
    view.prefered_x = view.cursor - line_start;
}

fn invert(edit: Edit) -> (res: Edit)
    ensures
        res@ == inverse(edit@),
{
    match edit {
        Edit::Insert { idx, text } => Edit::Delete { idx, text },
        Edit::Delete { idx, text } => Edit::Insert { idx, text },
    }
}

/// Takes the last edit back.
pub fn undo(view: &mut TextView, buffer: &mut Buffer) -> (res: Result<(), EditorErr>)
    requires
        Pane::new(*old(view), old(buffer)@).can_undo(),
    ensures
        Pane::new(*final(view), final(buffer)@) == Pane::new(*old(view), old(buffer)@).undone(),
        errors::stop_of(res) == Pane::new(*old(view), old(buffer)@).undo_stop(),
{
    let ghost p = Pane::new(*view, buffer@);
    let ghost stack = buffer.undo@;
    view.selection = None;
    match buffer.undo.pop() {
        Some(edit) => {
            proof {
                lemma_edits_pop(stack);
            }
            revert(view, buffer, &edit);
            let back: Edit = invert(edit);
            proof {
                lemma_edits_push(buffer.redo@, back);
            }
            buffer.redo.push(back);
            Ok(())
        },
        None => Err(EditorErr::Msg("undo stack is empty".to_string())),
    }
}

/// Makes the edit that was taken back last again.
pub fn redo(view: &mut TextView, buffer: &mut Buffer, rect: &Rect) -> (res: Result<(), EditorErr>)
    requires
        Pane::new(*old(view), old(buffer)@).can_redo(*rect),
    ensures
        Pane::new(*final(view), final(buffer)@) == Pane::new(*old(view), old(buffer)@).redone(
            *rect,
        ),
        errors::stop_of(res) == Pane::new(*old(view), old(buffer)@).redo_stop(),
{
    let ghost p = Pane::new(*view, buffer@);
    let ghost stack = buffer.redo@;
    view.selection = None;
    match buffer.redo.pop() {
        Some(edit) => {
            proof {
                lemma_edits_pop(stack);
            }
            revert(view, buffer, &edit);
            let back: Edit = invert(edit);
            proof {
                lemma_edits_push(buffer.undo@, back);
            }
            buffer.undo.push(back);
            assert(Pane::new(*view, buffer@) == p.remade());
            view.scroll(rect, buffer);
            Ok(())
        },
        None => Err(EditorErr::Msg("redo stack is empty".to_string())),
    }
}

/// Records a paste of the yanked text and moves the cursor on by it.
pub fn paste(view: &mut TextView, buffer: &mut Buffer, s: &String)
    requires
        Pane::new(*old(view), old(buffer)@).can_paste(s@),
    ensures
        Pane::new(*final(view), final(buffer)@) == Pane::new(*old(view), old(buffer)@).pasted(s@),
{
    let len: usize = text::rope_len_chars(&buffer.buf);
    let idx: usize = if view.cursor + 1 <= len {
        view.cursor + 1
    } else {
        len
    };
    let e: Edit = Edit::Insert { idx, text: s.clone() };
    proof {
        lemma_edits_push(buffer.undo@, e);
    }
    buffer.undo.push(e);
    view.cursor = view.cursor + s.as_str().unicode_len();
    view.selection = None;
}

/// Puts a text from outside in behind the cursor.
pub fn paste_clipboard(view: &mut TextView, buffer: &mut Buffer, s: &String)
    requires
        Pane::new(*old(view), old(buffer)@).can_paste(s@),
    ensures
        Pane::new(*final(view), final(buffer)@) == Pane::new(
            *old(view),
            old(buffer)@,
        ).clipboard_pasted(s@),
{
    let len: usize = text::rope_len_chars(&buffer.buf);
    let c: usize = if view.cursor + 1 <= len {
        view.cursor + 1
    } else {
        len
    };
    buffer.insert_string(view.off, c, s.as_str());
    let e: Edit = Edit::Insert { idx: c, text: s.clone() };
    proof {
        lemma_edits_push(buffer.undo@, e);
    }
    buffer.undo.push(e);
    view.cursor = view.cursor + s.as_str().unicode_len();
    view.selection = None;
}

/// What is selected.
pub fn yanked(sel: (usize, usize), buffer: &Buffer) -> (s: String)
    requires
        selection_fits(sel, buffer@.text),
    ensures
        s@ == selected(sel, buffer@.text),
{
    if sel.0 > sel.1 {
        text::rope_slice(&buffer.buf, sel.1, sel.0)
    } else {
        text::rope_slice(&buffer.buf, sel.0, sel.1)
    }
}

/// Whether an edit can be taken back in a text of the given length.
pub fn may_revert(edit: &Edit, len: usize) -> (res: bool)
    ensures
        res == can_revert(edit@, len as int),
{
    match edit {
        Edit::Insert { idx, text } => {
            let n: usize = text.as_str().unicode_len();
            *idx <= len && n <= len - *idx
        },
        Edit::Delete { idx, .. } => *idx <= len,
    }
}

/// Whether the place behind the last edit can be counted.
pub fn may_extend(undo: &Vec<Edit>) -> (res: bool)
    ensures
        res == last_edit_fits(buffers::edit_views(undo@)),
{
    let n: usize = undo.len();
    if n == 0 {
        return true;
    }
    assert(buffers::edit_views(undo@).last() == undo@[n - 1]@);
    match &undo[n - 1] {
        Edit::Insert { idx, text } => {
            let count: usize = text.as_str().unicode_len();
            *idx <= usize::MAX - count
        },
        Edit::Delete { .. } => true,
    }
}

// ---- whether an edit can be made

/// A view that is wide enough can scroll to any place of its text.
proof fn lemma_wide_scrolls(v: TextView, t: Seq<char>, rect: Rect)
    requires
        rect.w > 5,
        v.cursor <= t.len(),
    ensures
        v.can_scroll(t, rect),
{
}

/// Whether a character can be typed.
pub fn may_type(view: &TextView, buffer: &Buffer) -> (res: bool)
    ensures
        res == Pane::new(*view, buffer@).can_type(),
{
    view.cursor <= text::rope_len_chars(&buffer.buf) && view.cursor < usize::MAX && may_extend(
        &buffer.undo,
    )
}

/// Whether a line break can be typed.
pub fn may_break(view: &TextView, buffer: &Buffer, rect: &Rect) -> (res: bool)
    ensures
        res == Pane::new(*view, buffer@).can_break(*rect),
{
    if !may_type(view, buffer) {
        return false;
    }
    let ghost p = Pane::new(*view, buffer@);
    if rect.w > 5 && text::rope_len_chars(&buffer.buf) < usize::MAX {
        proof {
            let b = p.broken();
            let t = b.buffer.text;
            text::lemma_line_at(t, view.cursor as int);
            text::lemma_line_start(
                t,
                motion::least(
                    text::line_of(t, view.cursor as int) + 1,
                    text::line_count(t),
                ),
            );
            lemma_wide_scrolls(b.view, t, *rect);
        }
        return true;
    }
    let mut rope: Rope = text::rope_copy(&buffer.buf);
    text::rope_insert_char(&mut rope, view.cursor, '\n');
    let ghost t = text::rope_text(rope);
    proof {
        buffers::lemma_insert_one(p.buffer.text, view.cursor as int, '\n');
        assert(t == p.broken().buffer.text);
        text::lemma_line_at(t, view.cursor as int);
    }
    let len_lines: usize = text::rope_len_lines(&rope);
    let line: usize = text::rope_char_to_line(&rope, view.cursor) + 1;
    let line: usize = if line <= len_lines {
        line
    } else {
        len_lines
    };
    let moved: TextView = TextView { cursor: text::rope_line_to_char(&rope, line), ..*view };
    assert(moved.can_scroll(t, *rect) == p.broken().view.can_scroll(t, *rect));
    moved.may_scroll(rect, &rope)
}

/// Taking characters out does not depend on the record of edits.
proof fn lemma_erased_alike(p: Pane, q: Pane, rect: Rect, n: nat)
    requires
        p.view == q.view,
        p.buffer.text == q.buffer.text,
    ensures
        p.can_erase_times(rect, n) == q.can_erase_times(rect, n),
        p.erased_times(rect, n).view == q.erased_times(rect, n).view,
        p.erased_times(rect, n).buffer.text == q.erased_times(rect, n).buffer.text,
    decreases n,
{
    if n > 0 {
        lemma_erased_alike(p, q, rect, (n - 1) as nat);
    }
}

/// Where a view is wide enough, any number of characters can be taken out.
proof fn lemma_wide_erases(p: Pane, rect: Rect, n: nat)
    requires
        rect.w > 5,
        p.view.cursor <= p.buffer.text.len(),
    ensures
        p.can_erase_times(rect, n),
        p.erased_times(rect, n).view.cursor <= p.erased_times(rect, n).buffer.text.len(),
    decreases n,
{
    if n > 0 {
        lemma_wide_erases(p, rect, (n - 1) as nat);
        let q = p.erased_times(rect, (n - 1) as nat);
        if q.view.cursor > 0 {
            let s = q.shortened();
            assert(s.buffer.text.len() == q.buffer.text.len() - 1);
            lemma_wide_scrolls(s.view, s.buffer.text, rect);
        }
    }
}

/// Whether so many characters can be taken out in front of the cursor, tried
/// on a copy of the text.
fn may_erase_times(view: &TextView, buffer: &Buffer, rect: &Rect, n: usize) -> (res: bool)
    ensures
        res == Pane::new(*view, buffer@).can_erase_times(*rect, n as nat),
{
    let ghost p = Pane::new(*view, buffer@);
    if n == 0 {
        return true;
    }
    if view.cursor > text::rope_len_chars(&buffer.buf) {
        proof {
            lemma_erase_first(p, *rect, n as nat);
        }
        return false;
    }
    if rect.w > 5 {
        proof {
            lemma_wide_erases(p, *rect, n as nat);
        }
        return true;
    }
    let mut v: TextView = *view;
    let mut b: Buffer = Buffer::new(None, 0, Found::Missing);
    b.buf = text::rope_copy(&buffer.buf);
    let ghost q = Pane::new(v, b@);
    proof {
        lemma_erased_alike(p, q, *rect, n as nat);
    }
    let mut i: usize = 0;
    while i < n
        invariant
            i <= n,
            p == Pane::new(*view, buffer@),
            p.can_erase_times(*rect, n as nat) == q.can_erase_times(*rect, n as nat),
            q.can_erase_times(*rect, i as nat),
            Pane::new(v, b@) == q.erased_times(*rect, i as nat),
            v.cursor <= b@.text.len(),
        decreases n - i,
    {
        let ghost now = Pane::new(v, b@);
        let first: bool = v.cursor == 0;
        shorten(&mut v, &mut b);
        if !first {
            if !v.may_scroll(rect, &b.buf) {
                proof {
                    assert(!now.can_erase(*rect));
                    assert(!q.can_erase_times(*rect, (i + 1) as nat));
                    if q.can_erase_times(*rect, n as nat) {
                        lemma_can_erase_fewer(q, *rect, (i + 1) as nat, n as nat);
                    }
                }
                return false;
            }
            v.scroll(rect, &b);
        }
        assert(q.can_erase_times(*rect, (i + 1) as nat));
        assert(Pane::new(v, b@) == q.erased_times(*rect, (i + 1) as nat));
        i = i + 1;
    }
    true
}

/// Nothing can be taken out in front of a cursor that is behind the text.
proof fn lemma_erase_first(p: Pane, rect: Rect, n: nat)
    requires
        p.view.cursor > p.buffer.text.len(),
        n > 0,
    ensures
        !p.can_erase_times(rect, n),
{
    assert(p.erased_times(rect, 0) == p);
    assert(!p.can_erase_times(rect, 1));
    if p.can_erase_times(rect, n) {
        lemma_can_erase_fewer(p, rect, 1, n);
    }
}

/// Whether the selection, or one character, can be taken out.
pub fn may_delete(view: &TextView, buffer: &Buffer, rect: &Rect) -> (res: bool)
    ensures
        res == Pane::new(*view, buffer@).can_delete(*rect),
{
    let ghost p = Pane::new(*view, buffer@);
    let len: usize = text::rope_len_chars(&buffer.buf);
    let mut v: TextView = *view;
    match view.selection {
        Some(sel) => {
            v.cursor = if sel.1 <= len {
                sel.1
            } else {
                len
            };
            v.mode = Mode::Normal;
            assert(Pane::new(v, buffer@) == p.before_deletion());
            may_erase_times(&v, buffer, rect, sel.1.saturating_sub(sel.0))
        },
        None => {
            if view.mode == Mode::Normal {
                if view.cursor == usize::MAX {
                    return false;
                }
                v.cursor = if view.cursor + 1 <= len {
                    view.cursor + 1
                } else {
                    len
                };
            }
            assert(Pane::new(v, buffer@) == p.before_deletion());
            may_erase_times(&v, buffer, rect, 1)
        },
    }
}

/// Whether the edit that was taken back last can be made again.
pub fn may_redo(view: &TextView, buffer: &Buffer, rect: &Rect) -> (res: bool)
    ensures
        res == Pane::new(*view, buffer@).can_redo(*rect),
{
    let ghost p = Pane::new(*view, buffer@);
    let n: usize = buffer.redo.len();
    if n == 0 {
        return true;
    }
    let edit: &Edit = &buffer.redo[n - 1];
    assert(p.buffer.redo.last() == edit@);
    if !may_revert(edit, text::rope_len_chars(&buffer.buf)) {
        return false;
    }
    if rect.w > 5 {
        proof {
            lemma_wide_scrolls(p.remade().view, p.remade().buffer.text, *rect);
        }
        return true;
    }
    let mut rope: Rope = text::rope_copy(&buffer.buf);
    revert_text(&mut rope, edit);
    let moved: TextView = TextView { cursor: place_of(edit), ..*view };
    let ghost t = text::rope_text(rope);
    assert(t == p.remade().buffer.text);
    assert(moved.can_scroll(t, *rect) == p.remade().view.can_scroll(t, *rect));
    moved.may_scroll(rect, &rope)
}

} // verus!
