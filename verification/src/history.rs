//! What taking edits back promises: the record of edits always leads back to
//! the text that it started from, step by step, and forth again.
use vstd::prelude::*;
use crate::buffers;
use crate::buffers::{BufferView, EditView};
use crate::edits;
use crate::edits::Pane;
use crate::layout::Rect;

verus! {

/// The edit is in the text: what it put in stands at its place.
pub open spec fn applied(t: Seq<char>, e: EditView) -> bool {
    match e {
        EditView::Insert { idx, text } => {
            &&& 0 <= idx
            &&& idx + text.len() <= t.len()
            &&& t.subrange(idx, idx + text.len()) == text
        },
        EditView::Delete { idx, .. } => 0 <= idx <= t.len(),
    }
}

/// The edits of a record can be taken back, the last one first.
pub open spec fn faithful(t: Seq<char>, stack: Seq<EditView>) -> bool
    decreases stack.len(),
{
    stack.len() == 0 || {
        &&& applied(t, stack.last())
        &&& faithful(edits::reverted(t, stack.last()), stack.drop_last())
    }
}

/// The text without any of the edits of a record.
pub open spec fn base(t: Seq<char>, stack: Seq<EditView>) -> Seq<char>
    decreases stack.len(),
{
    if stack.len() == 0 {
        t
    } else {
        base(edits::reverted(t, stack.last()), stack.drop_last())
    }
}

/// Both records of a buffer lead somewhere from its text.
pub open spec fn sound(b: BufferView) -> bool {
    faithful(b.text, b.undo) && faithful(b.text, b.redo)
}

/// An edit taken back can be made again, and then the text is as it was.
pub proof fn law_inverse(t: Seq<char>, e: EditView)
    requires
        applied(t, e),
    ensures
        applied(edits::reverted(t, e), edits::inverse(e)),
        edits::reverted(edits::reverted(t, e), edits::inverse(e)) == t,
        edits::can_revert(e, t.len() as int),
{
    let r = edits::reverted(t, e);
    match e {
        EditView::Insert { idx, text } => {
            assert(r.take(idx) + text + r.skip(idx) =~= t);
        },
        EditView::Delete { idx, text } => {
            assert(r.subrange(idx, idx + text.len()) =~= text);
            assert(r.take(idx) + r.skip(idx + text.len()) =~= t);
        },
    }
}

/// One more edit at the end of a record: what it was made from is what taking
/// it back leads to.
proof fn lemma_pushed(t: Seq<char>, stack: Seq<EditView>, e: EditView)
    ensures
        base(t, stack.push(e)) == base(edits::reverted(t, e), stack),
        faithful(t, stack.push(e)) <==> applied(t, e) && faithful(edits::reverted(t, e), stack),
{
    assert(stack.push(e).drop_last() =~= stack);
}

proof fn lemma_updated(stack: Seq<EditView>, e: EditView)
    requires
        stack.len() > 0,
    ensures
        stack.update(stack.len() - 1, e) == stack.drop_last().push(e),
{
    assert(stack.update(stack.len() - 1, e) =~= stack.drop_last().push(e));
}

/// A text put in and recorded leads back to the text before.
proof fn lemma_inserted(t: Seq<char>, stack: Seq<EditView>, at: int, s: Seq<char>)
    requires
        0 <= at <= t.len(),
        faithful(t, stack),
    ensures
        ({
            let e = EditView::Insert { idx: at, text: s };
            let u = t.take(at) + s + t.skip(at);
            &&& faithful(u, stack.push(e))
            &&& base(u, stack.push(e)) == base(t, stack)
        }),
{
    let e = EditView::Insert { idx: at, text: s };
    let u = t.take(at) + s + t.skip(at);
    lemma_pushed(u, stack, e);
    assert(u.subrange(at, at + s.len()) =~= s);
    assert(edits::reverted(u, e) =~= t);
}

proof fn lemma_typed(t: Seq<char>, stack: Seq<EditView>, cursor: int, c: char)
    requires
        0 <= cursor <= t.len(),
        faithful(t, stack),
    ensures
        faithful(t.insert(cursor, c), edits::with_typed(stack, cursor, c)),
        base(t.insert(cursor, c), edits::with_typed(stack, cursor, c)) == base(t, stack),
{
    let u = t.insert(cursor, c);
    buffers::lemma_insert_one(t, cursor, c);
    lemma_inserted(t, stack, cursor, seq![c]);
    if stack.len() > 0 {
        match stack.last() {
            EditView::Insert { idx, text } if idx <= cursor <= idx + text.len() => {
                let e = EditView::Insert { idx, text: text.insert(cursor - idx, c) };
                lemma_updated(stack, e);
                lemma_pushed(u, stack.drop_last(), e);
                assert(u.subrange(idx, idx + text.len() + 1) =~= text.insert(cursor - idx, c)) by {
                    let sub = t.subrange(idx, idx + text.len());
                    let part = u.subrange(idx, idx + text.len() + 1);
                    assert forall|k: int| 0 <= k <= text.len() implies #[trigger] part[k]
                        == text.insert(cursor - idx, c)[k] by {
                        if k < cursor - idx {
                            assert(sub[k] == text[k]);
                        } else if k > cursor - idx {
                            assert(sub[k - 1] == text[k - 1]);
                        }
                    }
                }
                assert(edits::reverted(u, e) =~= edits::reverted(t, stack.last()));
            },
            _ => {},
        }
    }
}

proof fn lemma_erased(t: Seq<char>, stack: Seq<EditView>, cursor: int)
    requires
        0 < cursor <= t.len(),
        faithful(t, stack),
    ensures
        faithful(t.remove(cursor - 1), edits::with_erased(stack, cursor, t[cursor - 1])),
        base(t.remove(cursor - 1), edits::with_erased(stack, cursor, t[cursor - 1])) == base(
            t,
            stack,
        ),
{
    let c = t[cursor - 1];
    let u = t.remove(cursor - 1);
    let e = EditView::Delete { idx: cursor - 1, text: seq![c] };
    lemma_pushed(u, stack, e);
    assert(edits::reverted(u, e) =~= t);
    if stack.len() > 0 {
        match stack.last() {
            EditView::Delete { idx, text } if idx == cursor => {
                let e2 = EditView::Delete { idx: cursor - 1, text: seq![c] + text };
                lemma_updated(stack, e2);
                lemma_pushed(u, stack.drop_last(), e2);
                assert(edits::reverted(u, e2) =~= edits::reverted(t, stack.last()));
            },
            _ => {},
        }
    }
}

/// Typing a character keeps the records sound, and taking everything back
/// still leads to the same text.
pub proof fn law_typed(p: Pane, c: char)
    requires
        sound(p.buffer),
        p.view.cursor <= p.buffer.text.len(),
    ensures
        sound(p.typed(c).buffer),
        base(p.typed(c).buffer.text, p.typed(c).buffer.undo) == base(
            p.buffer.text,
            p.buffer.undo,
        ),
        sound(p.broken().buffer),
        base(p.broken().buffer.text, p.broken().buffer.undo) == base(
            p.buffer.text,
            p.buffer.undo,
        ),
{
    let cursor = p.view.cursor as int;
    buffers::lemma_insert_one(p.buffer.text, cursor, c);
    lemma_typed(p.buffer.text, p.buffer.undo, cursor, c);
    buffers::lemma_insert_one(p.buffer.text, cursor, '\n');
    lemma_typed(p.buffer.text, p.buffer.undo, cursor, '\n');
}

/// Taking a character out does so too.
pub proof fn law_erased(p: Pane, rect: Rect)
    requires
        sound(p.buffer),
        p.view.cursor <= p.buffer.text.len(),
    ensures
        sound(p.erased(rect).buffer),
        base(p.erased(rect).buffer.text, p.erased(rect).buffer.undo) == base(
            p.buffer.text,
            p.buffer.undo,
        ),
{
    if p.view.cursor > 0 {
        lemma_erased(p.buffer.text, p.buffer.undo, p.view.cursor as int);
    }
}

/// And so does taking out the selection or one character.
pub proof fn law_deleted(p: Pane, rect: Rect)
    requires
        sound(p.buffer),
        p.can_delete(rect),
    ensures
        sound(p.deleted(rect).buffer),
        base(p.deleted(rect).buffer.text, p.deleted(rect).buffer.undo) == base(
            p.buffer.text,
            p.buffer.undo,
        ),
{
    lemma_erased_times(p.before_deletion(), rect, p.deletion_count());
}

proof fn lemma_erased_times(p: Pane, rect: Rect, n: nat)
    requires
        sound(p.buffer),
        p.can_erase_times(rect, n),
    ensures
        sound(p.erased_times(rect, n).buffer),
        base(p.erased_times(rect, n).buffer.text, p.erased_times(rect, n).buffer.undo) == base(
            p.buffer.text,
            p.buffer.undo,
        ),
    decreases n,
{
    if n > 0 {
        lemma_erased_times(p, rect, (n - 1) as nat);
        let q = p.erased_times(rect, (n - 1) as nat);
        if q.view.cursor > 0 {
            law_erased(q, rect);
        }
    }
}

/// Pasting from outside does so as long as nothing waits to be made again:
/// unlike typing it leaves that record as it is.
pub proof fn law_clipboard_pasted(p: Pane, s: Seq<char>)
    requires
        sound(p.buffer),
        p.buffer.redo.len() == 0,
        p.can_paste(s),
    ensures
        sound(p.clipboard_pasted(s).buffer),
        base(p.clipboard_pasted(s).buffer.text, p.clipboard_pasted(s).buffer.undo) == base(
            p.buffer.text,
            p.buffer.undo,
        ),
{
    lemma_inserted(p.buffer.text, p.buffer.undo, p.paste_at(), s);
}

/// Pasting nothing does so in any case.
pub proof fn law_nothing_pasted(p: Pane, s: Seq<char>)
    requires
        sound(p.buffer),
        p.can_paste(s),
        s.len() == 0,
    ensures
        sound(p.clipboard_pasted(s).buffer),
        sound(p.pasted(s).buffer),
        p.clipboard_pasted(s).buffer.text == p.buffer.text,
{
    lemma_inserted(p.buffer.text, p.buffer.undo, p.paste_at(), s);
    let t = p.buffer.text;
    let at = p.paste_at();
    assert(t.take(at) + s + t.skip(at) =~= t);
}

/// Taking an edit back keeps the records sound and leads no other way.
pub proof fn law_undone(p: Pane)
    requires
        sound(p.buffer),
    ensures
        p.can_undo(),
        sound(p.undone().buffer),
        base(p.undone().buffer.text, p.undone().buffer.undo) == base(
            p.buffer.text,
            p.buffer.undo,
        ),
{
    let b = p.buffer;
    if b.undo.len() > 0 {
        let e = b.undo.last();
        law_inverse(b.text, e);
        lemma_pushed(edits::reverted(b.text, e), b.redo, edits::inverse(e));
    }
}

/// Making an edit again keeps the records sound and leads no other way.
pub proof fn law_redone(p: Pane, rect: Rect)
    requires
        sound(p.buffer),
    ensures
        rect.w > 5 ==> p.can_redo(rect),
        sound(p.redone(rect).buffer),
        base(p.redone(rect).buffer.text, p.redone(rect).buffer.undo) == base(
            p.buffer.text,
            p.buffer.undo,
        ),
{
    let b = p.buffer;
    if b.redo.len() > 0 {
        let e = b.redo.last();
        law_inverse(b.text, e);
        lemma_pushed(edits::reverted(b.text, e), b.undo, edits::inverse(e));
    }
}

/// An edit taken back and made again leaves the buffer as it was, and the
/// cursor at the place of the edit.
pub proof fn law_undo_redo(p: Pane, rect: Rect)
    requires
        p.buffer.undo.len() > 0,
        applied(p.buffer.text, p.buffer.undo.last()),
        p.buffer.text.len() <= usize::MAX,
    ensures
        p.can_undo(),
        p.undo_stop() is None,
        rect.w > 5 ==> p.undone().can_redo(rect),
        p.undone().redo_stop() is None,
        p.undone().redone(rect).buffer == p.buffer,
        p.undone().redone(rect).view.cursor == edits::edit_at(p.buffer.undo.last()),
        p.undone().redone(rect).view.selection is None,
        p.undone().redone(rect).view.mode == p.view.mode,
{
    let b = p.buffer;
    let e = b.undo.last();
    law_inverse(b.text, e);
    assert(edits::inverse(edits::inverse(e)) == e);
    assert(b.redo.push(edits::inverse(e)).drop_last() =~= b.redo);
    assert(b.undo.drop_last().push(e) =~= b.undo);
    assert(p.undone().redone(rect).buffer =~= p.buffer);
}

/// An edit made again and taken back leaves the buffer as it was, and the
/// cursor at the place of the edit.
pub proof fn law_redo_undo(p: Pane, rect: Rect)
    requires
        p.buffer.redo.len() > 0,
        applied(p.buffer.text, p.buffer.redo.last()),
        p.buffer.text.len() <= usize::MAX,
    ensures
        rect.w > 5 ==> p.can_redo(rect),
        p.redo_stop() is None,
        p.redone(rect).can_undo(),
        p.redone(rect).undo_stop() is None,
        p.redone(rect).undone().buffer == p.buffer,
        p.redone(rect).undone().view.cursor == edits::edit_at(p.buffer.redo.last()),
        p.redone(rect).undone().view.selection is None,
{
    let b = p.buffer;
    let e = b.redo.last();
    law_inverse(b.text, e);
    law_inverse(edits::reverted(b.text, e), edits::inverse(e));
    assert(edits::inverse(edits::inverse(e)) == e);
    assert(b.undo.push(edits::inverse(e)).drop_last() =~= b.undo);
    assert(b.redo.drop_last().push(e) =~= b.redo);
    assert(p.redone(rect).undone().buffer =~= p.buffer);
}

/// A character typed into a buffer without edits and taken back leaves the
/// text and the cursor as they were. It waits to be made again.
pub proof fn law_typed_undone(p: Pane, c: char)
    requires
        p.buffer.undo.len() == 0,
        p.view.cursor <= p.buffer.text.len(),
        p.view.cursor < usize::MAX,
    ensures
        p.can_type(),
        p.typed(c).can_undo(),
        p.typed(c).undo_stop() is None,
        p.typed(c).undone().buffer.text == p.buffer.text,
        p.typed(c).undone().buffer.undo == Seq::<EditView>::empty(),
        p.typed(c).undone().buffer.redo == seq![
            EditView::Delete { idx: p.view.cursor as int, text: seq![c] },
        ],
        p.typed(c).undone().view.cursor == p.view.cursor,
        p.typed(c).undone().view.selection is None,
{
    let t = p.buffer.text;
    let at = p.view.cursor as int;
    let q = p.typed(c);
    assert(q.buffer.undo == p.buffer.undo.push(EditView::Insert { idx: at, text: seq![c] }));
    assert(q.buffer.text == t.take(at) + seq![c] + t.skip(at));
    let e = q.buffer.undo.last();
    assert(edits::reverted(q.buffer.text, e) =~= t);
    assert(q.buffer.undo.drop_last() =~= Seq::<EditView>::empty());
    assert(q.undone().buffer.redo =~= seq![EditView::Delete { idx: at, text: seq![c] }]);
}

impl Pane {
    pub open spec fn undone_times(self, n: nat) -> Pane
        decreases n,
    {
        if n == 0 {
            self
        } else {
            self.undone().undone_times((n - 1) as nat)
        }
    }
}

/// Taking back every edit leads to the text that the record started from.
pub proof fn law_undone_all(p: Pane)
    requires
        sound(p.buffer),
    ensures
        p.undone_times(p.buffer.undo.len()).buffer.text == base(p.buffer.text, p.buffer.undo),
    decreases p.buffer.undo.len(),
{
    if p.buffer.undo.len() > 0 {
        law_undone(p);
        law_undone_all(p.undone());
    }
}

/// A selection that ends before the last character of the text is what goes
/// out when it is deleted, and the cursor is left where it started.
pub proof fn law_selection_deleted(p: Pane, rect: Rect, a: usize, b: usize)
    requires
        p.view.selection == Some((a, b)),
        a <= b < p.buffer.text.len(),
        p.can_delete(rect),
    ensures
        p.deleted(rect).buffer.text == p.buffer.text.take(a as int) + p.buffer.text.skip(b as int),
        p.deleted(rect).view.cursor == a,
{
    lemma_erased_run(p.before_deletion(), rect, (b - a) as nat);
    let t = p.buffer.text;
    assert(t.take(b - (b - a)) =~= t.take(a as int));
}

proof fn lemma_erased_run(p: Pane, rect: Rect, n: nat)
    requires
        n <= p.view.cursor < p.buffer.text.len(),
        p.can_erase_times(rect, n),
    ensures
        ({
            let q = p.erased_times(rect, n);
            let t = p.buffer.text;
            &&& q.buffer.text == t.take(p.view.cursor - n) + t.skip(p.view.cursor as int)
            &&& q.view.cursor == p.view.cursor - n
        }),
    decreases n,
{
    let t = p.buffer.text;
    let cursor = p.view.cursor as int;
    if n == 0 {
        assert(t.take(cursor) + t.skip(cursor) =~= t);
    } else {
        lemma_erased_run(p, rect, (n - 1) as nat);
        let q = p.erased_times(rect, (n - 1) as nat);
        let at = cursor - n + 1;
        let u = q.buffer.text;
        assert(u.remove(at - 1) =~= t.take(cursor - n) + t.skip(cursor));
    }
}

} // verus!
