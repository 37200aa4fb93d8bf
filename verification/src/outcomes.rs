//! What moving, selecting and editing come to, said of the cursor and the text
//! themselves.
use vstd::prelude::*;
use crate::buffers::{BufferView, EditView};
use crate::edits;
use crate::edits::Pane;
use crate::errors::EditorErrView;
use crate::layout::Rect;
use crate::motion;
use crate::text;
use crate::views::TextView;

verus! {

/// The position is on that line of the text.
pub open spec fn on_line(t: Seq<char>, i: int, line: int) -> bool {
    &&& 0 <= line < text::line_count(t)
    &&& text::line_start(t, line) <= i <= t.len()
    &&& i < text::line_start(t, line + 1) || line + 1 == text::line_count(t)
}

// ---- moving

/// Left goes one character back, from the start of a line nowhere.
pub proof fn law_left(v: TextView, t: Seq<char>, line: int)
    requires
        on_line(t, v.cursor as int, line),
        t.len() <= usize::MAX,
    ensures
        ({
            let u = v.moved_left(t);
            let start = text::line_start(t, line);
            if v.cursor > start {
                &&& u.cursor == v.cursor - 1
                &&& u.prefered_x == v.cursor - 1 - start
                &&& u.selection is None
                &&& u.off == v.off && u.mode == v.mode && u.buf == v.buf
            } else {
                u == v
            }
        }),
{
    motion::lemma_on_line(t, v.cursor as int, line);
    text::lemma_line_start(t, line);
}

/// Right goes one character on, but not off the last character of the line.
pub proof fn law_right(v: TextView, t: Seq<char>, line: int)
    requires
        on_line(t, v.cursor as int, line),
        t.len() <= usize::MAX,
    ensures
        ({
            let u = v.moved_right(t);
            if v.cursor + 1 < text::line_start(t, line + 1) {
                &&& u.cursor == v.cursor + 1
                &&& u.prefered_x == v.cursor + 1 - text::line_start(t, line)
                &&& u.selection is None
                &&& u.off == v.off && u.mode == v.mode && u.buf == v.buf
            } else {
                u == v
            }
        }),
{
    motion::lemma_on_line(t, v.cursor as int, line);
    text::lemma_line_starts_ordered(t, line, line + 1);
}

/// What one step back undid, one step on does again.
pub proof fn law_left_and_right(v: TextView, t: Seq<char>, line: int)
    requires
        on_line(t, v.cursor as int, line),
        t.len() <= usize::MAX,
        text::line_start(t, line) < v.cursor < text::line_start(t, line + 1),
    ensures
        v.moved_left(t).moved_right(t).cursor == v.cursor,
        v.moved_left(t).moved_right(t).prefered_x == v.cursor - text::line_start(t, line),
{
    law_left(v, t, line);
    law_right(v.moved_left(t), t, line);
}

/// The place in a line for a cursor that keeps to a column: that column, or
/// the last character of a line that is shorter.
pub open spec fn kept_column(t: Seq<char>, line: int, x: int) -> int {
    let (a, b) = (text::line_start(t, line), text::line_start(t, line + 1));
    if a + x < b {
        a + x
    } else if a < b {
        b - 1
    } else {
        a
    }
}

/// Up goes to the line above, to the column that the cursor keeps to.
pub proof fn law_up(v: TextView, t: Seq<char>, rect: Rect, line: int)
    requires
        on_line(t, v.cursor as int, line),
        t.len() <= usize::MAX,
    ensures
        ({
            let u = v.moved_up(t, rect);
            &&& u.prefered_x == v.prefered_x && u.mode == v.mode && u.buf == v.buf
            &&& line > 0 ==> u.cursor == kept_column(t, line - 1, v.prefered_x as int)
                && u.selection is None
            &&& line == 0 ==> u.cursor == v.cursor && u.selection == v.selection
        }),
{
    motion::lemma_on_line(t, v.cursor as int, line);
    if line > 0 {
        text::lemma_line_starts_ordered(t, line - 1, line);
        motion::lemma_landing(t, line - 1, v.prefered_x as int);
    }
}

/// Down goes to the line below, to the column that the cursor keeps to.
pub proof fn law_down(v: TextView, t: Seq<char>, rect: Rect, line: int)
    requires
        on_line(t, v.cursor as int, line),
        t.len() <= usize::MAX,
    ensures
        ({
            let u = v.moved_down(t, rect);
            &&& line + 1 < text::line_count(t) ==> {
                &&& u.cursor == kept_column(t, line + 1, v.prefered_x as int)
                &&& u.selection is None
                &&& u.prefered_x == v.prefered_x && u.mode == v.mode && u.buf == v.buf
            }
            &&& line + 1 == text::line_count(t) ==> u == v
        }),
{
    motion::lemma_on_line(t, v.cursor as int, line);
    if line + 1 < text::line_count(t) {
        text::lemma_line_starts_ordered(t, line + 1, line + 2);
        motion::lemma_landing(t, line + 1, v.prefered_x as int);
    }
}

proof fn lemma_kept_on_line(t: Seq<char>, line: int, x: int)
    requires
        0 <= line < text::line_count(t),
        0 <= x,
    ensures
        on_line(t, kept_column(t, line, x), line),
{
    text::lemma_line_starts_ordered(t, line, line + 1);
    if line + 1 < text::line_count(t) {
        text::lemma_inner_line(t, line);
    }
}

/// Down and up again leads back, however short the line below is.
pub proof fn law_down_and_up_again(v: TextView, t: Seq<char>, rect: Rect, line: int)
    requires
        on_line(t, v.cursor as int, line),
        t.len() <= usize::MAX,
        line + 1 < text::line_count(t),
        v.prefered_x == v.cursor - text::line_start(t, line),
    ensures
        v.moved_down(t, rect).moved_up(t, rect).cursor == v.cursor,
        v.moved_down(t, rect).moved_up(t, rect).prefered_x == v.prefered_x,
{
    let x = v.prefered_x as int;
    law_down(v, t, rect, line);
    lemma_kept_on_line(t, line + 1, x);
    law_up(v.moved_down(t, rect), t, rect, line + 1);
}

// ---- what is in sight

/// Where no line is folded a view scrolls no further than it has to: to the
/// line of the cursor from below, and so that it is the last one from above.
pub proof fn law_least_scroll(v: TextView, t: Seq<char>, rect: Rect, line: int)
    requires
        on_line(t, v.cursor as int, line),
        t.len() <= usize::MAX,
        rect.w > 5,
        forall|k: int|
            v.off <= k < line ==> #[trigger] text::line_start(t, k + 1) - text::line_start(t, k)
                < rect.w - 5,
    ensures
        ({
            let u = v.scrolled(t, rect);
            let below = if rect.h >= 2 {
                rect.h - 2
            } else {
                0
            };
            &&& u.off == (if line < v.off {
                line
            } else if line > v.off + below {
                line - below
            } else {
                v.off as int
            })
            &&& u == (TextView { off: u.off, ..v })
        }),
{
    motion::lemma_on_line(t, v.cursor as int, line);
    text::lemma_line_at(t, v.cursor as int);
    if v.off <= line {
        assert forall|k: int| v.off <= k < line implies #[trigger] text::line_len(t, k) < rect.w
            - 5 by {
            assert(text::line_start(t, k + 1) - text::line_start(t, k) < rect.w - 5);
        }
        motion::lemma_no_folds(t, rect.w - 5, v.off as int, line);
    }
}

/// A line above that of the cursor takes, with its line break, one row more
/// for every row it fills, and so many lines less are in sight above it.
pub proof fn law_folds_take_room(v: TextView, t: Seq<char>, rect: Rect, line: int)
    requires
        on_line(t, v.cursor as int, line),
        t.len() <= usize::MAX,
        rect.w > 5,
        rect.h >= 2,
        v.off + 1 == line,
    ensures
        ({
            let n = text::line_start(t, line) - text::line_start(t, line - 1);
            let extra = n / (rect.w - 5);
            let u = v.scrolled(t, rect);
            &&& extra < rect.h - 2 ==> u.off == v.off
            &&& extra >= rect.h - 2 ==> u.off == line
        }),
{
    motion::lemma_on_line(t, v.cursor as int, line);
    text::lemma_line_at(t, v.cursor as int);
    text::lemma_line_starts_ordered(t, line - 1, line);
    reveal_with_fuel(motion::folds, 2);
    let w = rect.w - 5;
    let n = text::line_start(t, line) - text::line_start(t, line - 1);
    text::lemma_inner_line(t, line - 1);
    assert(n / w >= 0) by (nonlinear_arith)
        requires
            n >= 0,
            w > 0,
    ;
    assert(motion::folds(t, w, v.off as int, line) == n / w);
}

// ---- selecting

/// A step to the left or up with a selection moves the cursor as it moves
/// without. In front of the start of the selection it becomes the start, and
/// the end stays; otherwise it becomes the last character selected, and the
/// start stays.
pub proof fn law_select_back(v: TextView, t: Seq<char>, rect: Rect, line: int, a: usize, b: usize)
    requires
        on_line(t, v.cursor as int, line),
        t.len() < usize::MAX,
        v.selection == Some((a, b)),
    ensures
        ({
            let u = v.selection_moved_left(t);
            let c = v.moved_left(t).cursor;
            &&& u.cursor == c && u.prefered_x == v.moved_left(t).prefered_x
            &&& u.mode == v.mode && u.off == v.off && u.buf == v.buf
            &&& v.cursor > text::line_start(t, line) ==> u.selection == Some(
                if c < a {
                    (c, b)
                } else {
                    (a, (c + 1) as usize)
                },
            )
            &&& v.cursor == text::line_start(t, line) ==> u == v
        }),
        ({
            let u = v.selection_moved_up(t, rect);
            let c = v.moved_up(t, rect).cursor;
            &&& u.cursor == c && u.off == v.moved_up(t, rect).off
            &&& u.prefered_x == v.prefered_x && u.mode == v.mode && u.buf == v.buf
            &&& line > 0 && c < t.len() ==> u.selection == Some(
                if c < a {
                    (c, b)
                } else {
                    (a, (c + 1) as usize)
                },
            )
            &&& line == 0 ==> u.selection == v.selection
        }),
{
    motion::lemma_on_line(t, v.cursor as int, line);
    law_left(v, t, line);
    law_up(v, t, rect, line);
    if line > 0 {
        motion::lemma_landing(t, line - 1, v.prefered_x as int);
    }
}

/// A step to the right or down with a selection: behind its end the cursor
/// becomes the last character selected, and the start stays; otherwise it
/// becomes the start, and the end stays.
pub proof fn law_select_on(v: TextView, t: Seq<char>, rect: Rect, line: int, a: usize, b: usize)
    requires
        on_line(t, v.cursor as int, line),
        t.len() < usize::MAX,
        v.selection == Some((a, b)),
    ensures
        ({
            let u = v.selection_moved_right(t);
            let c = v.moved_right(t).cursor;
            let moves = v.cursor + 1 < text::line_start(t, line + 1);
            &&& u.cursor == c && u.prefered_x == v.moved_right(t).prefered_x
            &&& u.mode == v.mode && u.off == v.off && u.buf == v.buf
            &&& moves ==> u.selection == Some(
                if c >= b {
                    (a, (c + 1) as usize)
                } else {
                    (c, b)
                },
            )
            &&& !moves ==> u == v
        }),
        ({
            let u = v.selection_moved_down(t, rect);
            let c = v.moved_down(t, rect).cursor;
            &&& u.cursor == c && u.off == v.moved_down(t, rect).off
            &&& u.prefered_x == v.prefered_x && u.mode == v.mode && u.buf == v.buf
            &&& line + 1 < text::line_count(t) && c < t.len() ==> u.selection == Some(
                if c >= b {
                    (a, (c + 1) as usize)
                } else {
                    (c, b)
                },
            )
            &&& line + 1 == text::line_count(t) ==> u == v
        }),
{
    motion::lemma_on_line(t, v.cursor as int, line);
    law_right(v, t, line);
    law_down(v, t, rect, line);
    text::lemma_line_starts_ordered(t, line, line + 1);
    if line + 1 < text::line_count(t) {
        motion::lemma_landing(t, line + 1, v.prefered_x as int);
    }
}

/// Everything from the one place to the other, both of them selected.
pub open spec fn span(p: int, c: int) -> (int, int) {
    if p <= c {
        (p, c + 1)
    } else {
        (c, p + 1)
    }
}

pub open spec fn spans(v: TextView, p: int) -> bool {
    v.selection matches Some(sel) && (sel.0 as int, sel.1 as int) == span(p, v.cursor as int)
}

/// However the cursor goes left and right, the selection reaches from where it
/// was started to the cursor.
pub proof fn law_selection_spans(v: TextView, t: Seq<char>, line: int, p: int)
    requires
        on_line(t, v.cursor as int, line),
        v.cursor < t.len() < usize::MAX,
        0 <= p < t.len(),
        spans(v, p),
    ensures
        spans(v.selection_moved_left(t), p),
        spans(v.selection_moved_right(t), p),
{
    let sel = v.selection->0;
    let rect = Rect { x: 0, y: 0, h: 0, w: 0 };
    law_left(v, t, line);
    law_right(v, t, line);
    text::lemma_line_starts_ordered(t, line, line + 1);
    law_select_back(v, t, rect, line, sel.0, sel.1);
    law_select_on(v, t, rect, line, sel.0, sel.1);
}

/// Up and down it does so too, as long as the cursor stays on one side of
/// where the selection was started.
pub proof fn law_selection_spans_lines(v: TextView, t: Seq<char>, rect: Rect, line: int, p: int)
    requires
        on_line(t, v.cursor as int, line),
        v.cursor < t.len() < usize::MAX,
        0 <= p < t.len(),
        spans(v, p),
    ensures
        v.cursor <= p || v.moved_up(t, rect).cursor >= p ==> spans(
            v.selection_moved_up(t, rect),
            p,
        ),
        (v.cursor >= p || v.moved_down(t, rect).cursor <= p) && v.moved_down(t, rect).cursor
            < t.len() ==> spans(v.selection_moved_down(t, rect), p),
{
    let sel = v.selection->0;
    law_up(v, t, rect, line);
    law_down(v, t, rect, line);
    law_select_back(v, t, rect, line, sel.0, sel.1);
    law_select_on(v, t, rect, line, sel.0, sel.1);
    if line > 0 {
        text::lemma_line_starts_ordered(t, line - 1, line);
        lemma_kept_on_line(t, line - 1, v.prefered_x as int);
    }
    if line + 1 < text::line_count(t) {
        lemma_kept_on_line(t, line + 1, v.prefered_x as int);
    }
}

// ---- typing

/// The text with something put in, or a part of it taken out.
pub open spec fn spliced(t: Seq<char>, at: int, out: int, s: Seq<char>) -> Seq<char> {
    t.subrange(0, at) + s + t.subrange(at + out, t.len() as int)
}

/// A character typed stands in front of what the cursor was on. The cursor
/// goes one on, but not off the last character of its line.
pub proof fn law_typed_text(p: Pane, c: char, line: int)
    requires
        p.view.cursor <= p.buffer.text.len() < usize::MAX,
        on_line(
            spliced(p.buffer.text, p.view.cursor as int, 0, seq![c]),
            p.view.cursor as int,
            line,
        ),
    ensures
        ({
            let q = p.typed(c);
            let t = q.buffer.text;
            let last = text::line_start(t, line + 1) - 1;
            &&& t == spliced(p.buffer.text, p.view.cursor as int, 0, seq![c])
            &&& q.view.cursor == (if p.view.cursor < last {
                p.view.cursor + 1
            } else {
                last
            })
            &&& q.view.prefered_x == q.view.cursor - text::line_start(t, line)
            &&& q.view.selection is None
            &&& q.view.mode == p.view.mode && q.view.off == p.view.off && q.view.buf == p.view.buf
            &&& q.buffer.redo.len() == 0
            &&& q.buffer.flags == p.buffer.flags && q.buffer.file == p.buffer.file
        }),
{
    let t = p.typed(c).buffer.text;
    let at = p.view.cursor as int;
    assert(t =~= spliced(p.buffer.text, at, 0, seq![c]));
    motion::lemma_on_line(t, at, line);
    text::lemma_line_starts_ordered(t, line, line + 1);
    text::lemma_line_at(t, at);
    if line + 1 == text::line_count(t) {
        assert(text::line_start(t, line + 1) == t.len());
    }
}

/// What is typed in one go is taken back in one go.
pub proof fn law_typed_as_one(p: Pane, c: char, d: char)
    requires
        p.view.cursor <= p.buffer.text.len(),
        p.buffer.text.len() + 2 <= usize::MAX,
        p.typed(c).view.cursor == p.view.cursor + 1,
        p.buffer.undo.len() > 0 ==> (p.buffer.undo.last() matches EditView::Insert { idx, .. }
            ==> p.view.cursor < idx),
    ensures
        p.typed(c).typed(d).undone().buffer.text == p.buffer.text,
        p.typed(c).typed(d).undone().buffer.undo == p.buffer.undo,
        p.typed(c).typed(d).undone().view.cursor == p.view.cursor,
{
    let at = p.view.cursor as int;
    let t = p.buffer.text;
    let q = p.typed(c);
    let r = q.typed(d);
    let one = EditView::Insert { idx: at, text: seq![c] };
    assert(q.buffer.undo == p.buffer.undo.push(one));
    assert(q.buffer.undo.last() == one);
    assert(seq![c].insert(1, d) =~= seq![c, d]);
    assert(r.buffer.undo =~= p.buffer.undo.push(EditView::Insert { idx: at, text: seq![c, d] }));
    assert(r.buffer.text =~= spliced(t, at, 0, seq![c, d]));
    assert(r.buffer.undo.drop_last() =~= p.buffer.undo);
    assert(r.undone().buffer.text =~= t);
}

/// A line break typed at the cursor: the cursor is behind it, at the start of
/// the new line.
pub proof fn law_line_broken(p: Pane, rect: Rect)
    requires
        p.view.cursor <= p.buffer.text.len() < usize::MAX,
        p.view.cursor > 0 ==> p.buffer.text[p.view.cursor - 1] != '\r',
    ensures
        ({
            let q = p.line_broken(rect);
            &&& q.buffer.text == spliced(p.buffer.text, p.view.cursor as int, 0, seq!['\n'])
            &&& q.view.cursor == p.view.cursor + 1
            &&& q.view.selection is None
            &&& q.view.mode == p.view.mode && q.view.buf == p.view.buf
            &&& q.buffer.redo.len() == 0
        }),
{
    let at = p.view.cursor as int;
    let t = p.broken().buffer.text;
    assert(t =~= spliced(p.buffer.text, at, 0, seq!['\n']));
    text::lemma_line_at(t, at);
    text::lemma_line_at(t, at + 1);
    let k = text::line_of(t, at) + 1;
    assert(t[at] == '\n');
    assert(text::starts_line(t, at + 1));
    assert(text::line_of(t, at + 1) == k);
    text::lemma_line_holds(t, at, k);
    text::lemma_line_holds(t, at + 1, k);
}

// ---- taking out

/// Backspace takes out the character in front of the cursor, which goes there,
/// but stays in front of the last character of the text.
pub proof fn law_erased_text(p: Pane, rect: Rect)
    requires
        p.view.cursor <= p.buffer.text.len() <= usize::MAX,
    ensures
        ({
            let q = p.erased(rect);
            let n = p.buffer.text.len();
            &&& p.view.cursor == 0 ==> q.buffer.text == p.buffer.text && q.view == p.view
                && q.buffer.undo == p.buffer.undo
            &&& p.view.cursor > 0 ==> {
                &&& q.buffer.text == spliced(
                    p.buffer.text,
                    p.view.cursor - 1,
                    1,
                    Seq::<char>::empty(),
                )
                &&& q.view.cursor == (if p.view.cursor == n && n >= 2 {
                    n - 2
                } else {
                    p.view.cursor - 1
                })
                &&& q.view.selection == p.view.selection && q.view.mode == p.view.mode
                    && q.view.buf == p.view.buf
            }
            &&& q.buffer.redo.len() == 0
        }),
{
    if p.view.cursor > 0 {
        assert(p.erased(rect).buffer.text =~= spliced(
            p.buffer.text,
            p.view.cursor - 1,
            1,
            Seq::<char>::empty(),
        ));
    }
}

/// Without a selection one character goes: in normal mode the one at the
/// cursor, in insert mode the one in front of it.
pub proof fn law_one_deleted(p: Pane, rect: Rect)
    requires
        p.view.selection is None,
        p.view.cursor < p.buffer.text.len() <= usize::MAX,
    ensures
        p.view.mode is Normal ==> {
            let q = p.deleted(rect);
            let n = p.buffer.text.len();
            &&& q.buffer.text == spliced(p.buffer.text, p.view.cursor as int, 1, Seq::empty())
            &&& q.view.cursor == (if p.view.cursor == n - 1 && n >= 2 {
                n - 2
            } else {
                p.view.cursor as int
            })
            &&& q.view.mode is Normal
        },
        p.view.mode is Insert && p.view.cursor > 0 ==> {
            let q = p.deleted(rect);
            &&& q.buffer.text == spliced(p.buffer.text, p.view.cursor - 1, 1, Seq::empty())
            &&& q.view.cursor == p.view.cursor - 1
            &&& q.view.mode is Insert
        },
        p.view.mode is Insert && p.view.cursor == 0 ==> p.deleted(rect).buffer.text
            == p.buffer.text,
{
    let b = p.before_deletion();
    assert(b.erased_times(rect, 0) == b);
    assert(p.deleted(rect) == b.erased(rect));
    law_erased_text(b, rect);
}

/// A deleted selection is gone with its mark, and the view is in normal mode.
pub proof fn law_selection_gone(p: Pane, rect: Rect)
    requires
        p.view.selection is Some,
    ensures
        p.deleted(rect).view.selection is None,
        p.deleted(rect).view.mode is Normal,
{
    lemma_erased_mode(p.before_deletion(), rect, p.deletion_count());
}

proof fn lemma_erased_mode(p: Pane, rect: Rect, n: nat)
    ensures
        p.erased_times(rect, n).view.mode == p.view.mode,
    decreases n,
{
    if n > 0 {
        lemma_erased_mode(p, rect, (n - 1) as nat);
    }
}

/// What is taken out in one go is put back in one go.
pub proof fn law_erased_as_one(p: Pane, rect: Rect)
    requires
        2 <= p.view.cursor < p.buffer.text.len() <= usize::MAX,
        p.buffer.undo.len() > 0 ==> (p.buffer.undo.last() matches EditView::Delete { idx, .. }
            ==> idx != p.view.cursor),
    ensures
        p.erased(rect).erased(rect).undone().buffer.text == p.buffer.text,
        p.erased(rect).erased(rect).undone().buffer.undo == p.buffer.undo,
        p.erased(rect).erased(rect).undone().view.cursor == p.view.cursor - 2,
{
    let at = p.view.cursor as int;
    let t = p.buffer.text;
    let q = p.erased(rect);
    let r = q.erased(rect);
    law_erased_text(p, rect);
    law_erased_text(q, rect);
    let one = EditView::Delete { idx: at - 1, text: seq![t[at - 1]] };
    assert(q.buffer.undo == p.buffer.undo.push(one));
    assert(q.buffer.undo.last() == one);
    assert(q.buffer.text[at - 2] == t[at - 2]);
    let two = EditView::Delete { idx: at - 2, text: seq![t[at - 2]] + seq![t[at - 1]] };
    assert(r.buffer.undo =~= p.buffer.undo.push(two));
    assert(r.buffer.undo.last() == two);
    assert(r.buffer.undo.drop_last() =~= p.buffer.undo);
    assert(r.undone().buffer.text =~= t);
}

// ---- taking back

/// Undo takes the last edit of its record off: what was put in goes, what was
/// taken out comes back. The cursor goes there, and the edit waits for redo.
pub proof fn law_undone_text(p: Pane)
    requires
        p.buffer.undo.len() > 0,
        p.buffer.text.len() <= usize::MAX,
        edits::can_revert(p.buffer.undo.last(), p.buffer.text.len() as int),
    ensures
        ({
            let q = p.undone();
            let n = p.buffer.undo.len() - 1;
            &&& q.buffer.undo == p.buffer.undo.subrange(0, n)
            &&& q.view.selection is None && q.view.mode == p.view.mode && q.view.buf == p.view.buf
            &&& match p.buffer.undo[n] {
                EditView::Insert { idx, text } => {
                    &&& q.buffer.text == spliced(
                        p.buffer.text,
                        idx,
                        text.len() as int,
                        Seq::empty(),
                    )
                    &&& q.view.cursor == idx
                    &&& q.buffer.redo == p.buffer.redo.push(EditView::Delete { idx, text })
                },
                EditView::Delete { idx, text } => {
                    &&& q.buffer.text == spliced(p.buffer.text, idx, 0, text)
                    &&& q.view.cursor == idx
                    &&& q.buffer.redo == p.buffer.redo.push(EditView::Insert { idx, text })
                },
            }
        }),
{
    let n = p.buffer.undo.len() - 1;
    let t = p.buffer.text;
    assert(p.buffer.undo.drop_last() =~= p.buffer.undo.subrange(0, n));
    match p.buffer.undo[n] {
        EditView::Insert { idx, text } => {
            assert(p.undone().buffer.text =~= spliced(t, idx, text.len() as int, Seq::empty()));
        },
        EditView::Delete { idx, text } => {
            assert(p.undone().buffer.text =~= spliced(t, idx, 0, text));
        },
    }
}

/// Redo does the same with its own record.
pub proof fn law_redone_text(p: Pane, rect: Rect)
    requires
        p.buffer.redo.len() > 0,
        p.buffer.text.len() <= usize::MAX,
        edits::can_revert(p.buffer.redo.last(), p.buffer.text.len() as int),
    ensures
        ({
            let q = p.redone(rect);
            let n = p.buffer.redo.len() - 1;
            &&& q.buffer.redo == p.buffer.redo.subrange(0, n)
            &&& q.view.selection is None && q.view.mode == p.view.mode && q.view.buf == p.view.buf
            &&& match p.buffer.redo[n] {
                EditView::Insert { idx, text } => {
                    &&& q.buffer.text == spliced(
                        p.buffer.text,
                        idx,
                        text.len() as int,
                        Seq::empty(),
                    )
                    &&& q.view.cursor == idx
                    &&& q.buffer.undo == p.buffer.undo.push(EditView::Delete { idx, text })
                },
                EditView::Delete { idx, text } => {
                    &&& q.buffer.text == spliced(p.buffer.text, idx, 0, text)
                    &&& q.view.cursor == idx
                    &&& q.buffer.undo == p.buffer.undo.push(EditView::Insert { idx, text })
                },
            }
        }),
{
    let n = p.buffer.redo.len() - 1;
    let t = p.buffer.text;
    assert(p.buffer.redo.drop_last() =~= p.buffer.redo.subrange(0, n));
    match p.buffer.redo[n] {
        EditView::Insert { idx, text } => {
            assert(p.redone(rect).buffer.text =~= spliced(
                t,
                idx,
                text.len() as int,
                Seq::empty(),
            ));
        },
        EditView::Delete { idx, text } => {
            assert(p.redone(rect).buffer.text =~= spliced(t, idx, 0, text));
        },
    }
}

// ---- yanking and pasting

/// What is yanked are the characters from the one end of the selection up to
/// the other.
pub proof fn law_yanked_text(sel: (usize, usize), t: Seq<char>, i: int)
    requires
        sel.0 <= t.len(),
        sel.1 <= t.len(),
        sel.0 <= sel.1,
    ensures
        edits::selected(sel, t).len() == sel.1 - sel.0,
        edits::selected((sel.1, sel.0), t) == edits::selected(sel, t),
        0 <= i < sel.1 - sel.0 ==> edits::selected(sel, t)[i] == t[sel.0 + i],
{
}

/// A text from outside goes in behind the character at the cursor, and the
/// cursor goes on by its length.
pub proof fn law_pasted_behind(p: Pane, s: Seq<char>)
    requires
        p.buffer.text.len() <= usize::MAX,
        p.view.cursor + s.len() < usize::MAX,
    ensures
        ({
            let q = p.clipboard_pasted(s);
            let t = p.buffer.text;
            let at = if p.view.cursor < t.len() {
                p.view.cursor + 1
            } else {
                t.len() as int
            };
            &&& q.buffer.text == spliced(t, at, 0, s)
            &&& q.view.cursor == p.view.cursor + s.len()
            &&& q.view.selection is None && q.view.mode == p.view.mode && q.view.off == p.view.off
            &&& q.buffer.undo == p.buffer.undo.push(EditView::Insert { idx: at, text: s })
            &&& q.buffer.redo == p.buffer.redo
        }),
{
    let t = p.buffer.text;
    let at = if p.view.cursor < t.len() {
        p.view.cursor + 1
    } else {
        t.len() as int
    };
    assert(p.clipboard_pasted(s).buffer.text =~= spliced(t, at, 0, s));
}

/// A paste of what was yanked is recorded at the same place and moves the
/// cursor; the text stays.
pub proof fn law_paste_recorded(p: Pane, s: Seq<char>)
    requires
        p.view.cursor + s.len() < usize::MAX,
    ensures
        ({
            let q = p.pasted(s);
            let n = p.buffer.text.len();
            let at = if p.view.cursor < n {
                p.view.cursor + 1
            } else {
                n as int
            };
            &&& q.buffer.text == p.buffer.text
            &&& q.view.cursor == p.view.cursor + s.len()
            &&& q.view.selection is None && q.view.mode == p.view.mode
            &&& q.buffer.undo == p.buffer.undo.push(EditView::Insert { idx: at, text: s })
        }),
{
}

// ---- what else an edit changes, and what it leaves alone

/// The buffer belongs to the same file as before.
pub open spec fn same_file(a: BufferView, b: BufferView) -> bool {
    a.generation == b.generation && a.flags == b.flags && a.file == b.file
}

/// The buffer remembers the same place as before.
pub open spec fn same_place(a: BufferView, b: BufferView) -> bool {
    a.last_cursor == b.last_cursor && a.last_off == b.last_off
}

/// What is typed or pasted makes the buffer remember the place, no other edit
/// does; and none touches what the buffer belongs to.
pub proof fn law_place_remembered(p: Pane, c: char, s: Seq<char>, rect: Rect)
    requires
        p.buffer.text.len() < usize::MAX,
        p.view.cursor < usize::MAX,
    ensures
        same_file(p.typed(c).buffer, p.buffer),
        same_file(p.line_broken(rect).buffer, p.buffer),
        same_file(p.erased(rect).buffer, p.buffer),
        same_file(p.undone().buffer, p.buffer),
        same_file(p.redone(rect).buffer, p.buffer),
        same_file(p.pasted(s).buffer, p.buffer),
        same_file(p.clipboard_pasted(s).buffer, p.buffer),
        same_place(p.erased(rect).buffer, p.buffer),
        same_place(p.undone().buffer, p.buffer),
        same_place(p.redone(rect).buffer, p.buffer),
        same_place(p.pasted(s).buffer, p.buffer),
        ({
            let b = p.typed(c).buffer;
            let n = p.line_broken(rect).buffer;
            let o = p.clipboard_pasted(s).buffer;
            &&& b.last_cursor == p.view.cursor && b.last_off == p.view.off
            &&& n.last_cursor == p.view.cursor && n.last_off == p.view.off
            &&& o.last_off == p.view.off
            &&& p.view.cursor < p.buffer.text.len() ==> o.last_cursor == p.view.cursor + 1
            &&& p.view.cursor >= p.buffer.text.len() ==> o.last_cursor == p.buffer.text.len()
        }),
{
}

/// After a line break, a character taken out and an edit made again the view
/// scrolls to the line of the cursor; taking an edit back leaves it where it is.
pub proof fn law_scrolled_after(p: Pane, rect: Rect)
    requires
        p.view.cursor <= p.buffer.text.len() < usize::MAX,
        p.buffer.redo.len() > 0,
    ensures
        ({
            let q = p.line_broken(rect);
            let v = TextView { off: p.view.off, ..q.view };
            &&& q.view.off == v.scrolled(q.buffer.text, rect).off
            &&& q.view.prefered_x == p.view.prefered_x
        }),
        ({
            let q = p.erased(rect);
            let v = TextView { off: p.view.off, ..q.view };
            p.view.cursor > 0 ==> q.view.off == v.scrolled(q.buffer.text, rect).off
        }),
        ({
            let q = p.redone(rect);
            let v = TextView { off: p.view.off, ..q.view };
            q.view.off == v.scrolled(q.buffer.text, rect).off
        }),
        p.undone().view.off == p.view.off,
{
}

/// The column that the cursor keeps to is that of the character taken out, or
/// that of the edit.
pub proof fn law_column_after(p: Pane, rect: Rect, line: int)
    requires
        p.buffer.text.len() < usize::MAX,
    ensures
        0 < p.view.cursor <= p.buffer.text.len() && on_line(
            p.buffer.text,
            p.view.cursor - 1,
            line,
        ) ==> p.erased(rect).view.prefered_x == p.view.cursor - 1 - text::line_start(
            p.buffer.text,
            line,
        ),
        ({
            let q = p.undone();
            p.buffer.undo.len() > 0 && edits::can_revert(
                p.buffer.undo.last(),
                p.buffer.text.len() as int,
            ) && q.buffer.text.len() <= usize::MAX && on_line(
                q.buffer.text,
                q.view.cursor as int,
                line,
            ) ==> q.view.prefered_x == q.view.cursor - text::line_start(q.buffer.text, line)
        }),
        ({
            let q = p.redone(rect);
            p.buffer.redo.len() > 0 && edits::can_revert(
                p.buffer.redo.last(),
                p.buffer.text.len() as int,
            ) && q.buffer.text.len() <= usize::MAX && on_line(
                q.buffer.text,
                q.view.cursor as int,
                line,
            ) ==> q.view.prefered_x == q.view.cursor - text::line_start(q.buffer.text, line)
        }),
{
    let (t, u, r) = (p.buffer.text, p.undone().buffer.text, p.redone(rect).buffer.text);
    if 0 < p.view.cursor <= t.len() && on_line(t, p.view.cursor - 1, line) {
        motion::lemma_on_line(t, p.view.cursor - 1, line);
        text::lemma_line_start(t, line);
    }
    if on_line(u, p.undone().view.cursor as int, line) {
        motion::lemma_on_line(u, p.undone().view.cursor as int, line);
        text::lemma_line_start(u, line);
    }
    if on_line(r, p.redone(rect).view.cursor as int, line) {
        motion::lemma_on_line(r, p.redone(rect).view.cursor as int, line);
        text::lemma_line_start(r, line);
    }
}

/// A character typed anywhere in what was typed last belongs to that edit: both
/// are taken back together. Elsewhere it is an edit of its own.
pub proof fn law_typed_joins(p: Pane, c: char)
    requires
        p.view.cursor <= p.buffer.text.len() < usize::MAX,
        p.buffer.undo.len() > 0,
        edits::can_revert(p.buffer.undo.last(), p.buffer.text.len() as int),
    ensures
        ({
            let q = p.typed(c);
            let joins = match p.buffer.undo.last() {
                EditView::Insert { idx, text } => idx <= p.view.cursor <= idx + text.len(),
                EditView::Delete { .. } => false,
            };
            &&& joins ==> q.buffer.undo.len() == p.buffer.undo.len()
                && q.undone().buffer.text == p.undone().buffer.text
            &&& !joins ==> q.buffer.undo.len() == p.buffer.undo.len() + 1
                && q.undone().buffer.text == p.buffer.text && q.undone().buffer.undo
                == p.buffer.undo
        }),
{
    let at = p.view.cursor as int;
    let t = p.buffer.text;
    let q = p.typed(c);
    let own = EditView::Insert { idx: at, text: seq![c] };
    let joins = match p.buffer.undo.last() {
        EditView::Insert { idx, text } => idx <= at <= idx + text.len(),
        EditView::Delete { .. } => false,
    };
    if joins {
        assert(q.undone().buffer.text =~= p.undone().buffer.text);
    } else {
        assert(q.buffer.undo == p.buffer.undo.push(own));
        assert(q.buffer.undo.drop_last() =~= p.buffer.undo);
        assert(q.undone().buffer.text =~= t);
    }
}

/// A character taken out right in front of what was taken out last belongs to
/// that edit: both come back together. Elsewhere it is an edit of its own.
pub proof fn law_erased_joins(p: Pane, rect: Rect)
    requires
        0 < p.view.cursor <= p.buffer.text.len() <= usize::MAX,
        p.buffer.undo.len() > 0,
        edits::can_revert(p.buffer.undo.last(), p.buffer.text.len() as int),
    ensures
        ({
            let q = p.erased(rect);
            let joins = match p.buffer.undo.last() {
                EditView::Delete { idx, .. } => idx == p.view.cursor,
                EditView::Insert { .. } => false,
            };
            &&& joins ==> q.buffer.undo.len() == p.buffer.undo.len()
                && q.undone().buffer.text == p.undone().buffer.text
            &&& !joins ==> q.buffer.undo.len() == p.buffer.undo.len() + 1
                && q.undone().buffer.text == p.buffer.text && q.undone().buffer.undo
                == p.buffer.undo
        }),
{
    let at = p.view.cursor as int;
    let t = p.buffer.text;
    let q = p.erased(rect);
    let own = EditView::Delete { idx: at - 1, text: seq![t[at - 1]] };
    let joins = match p.buffer.undo.last() {
        EditView::Delete { idx, .. } => idx == at,
        EditView::Insert { .. } => false,
    };
    if joins {
        assert(q.undone().buffer.text =~= p.undone().buffer.text);
    } else {
        assert(q.buffer.undo == p.buffer.undo.push(own));
        assert(q.buffer.undo.drop_last() =~= p.buffer.undo);
        assert(q.undone().buffer.text =~= t);
    }
}

/// Where there is nothing to take back, or nothing to make again, that is said,
/// and only the selection goes.
pub proof fn law_nothing_to_undo(p: Pane, rect: Rect)
    ensures
        p.buffer.undo.len() == 0 ==> p.undone() == (Pane {
            view: TextView { selection: None, ..p.view },
            ..p
        }) && p.undo_stop() == Some(EditorErrView::Msg("undo stack is empty"@)),
        p.buffer.redo.len() == 0 ==> p.redone(rect) == (Pane {
            view: TextView { selection: None, ..p.view },
            ..p
        }) && p.redo_stop() == Some(EditorErrView::Msg("redo stack is empty"@)),
        p.buffer.undo.len() > 0 ==> p.undo_stop() is None,
        p.buffer.redo.len() > 0 ==> p.redo_stop() is None,
{
}

} // verus!
