//! Moving the cursor of a view, its selection, and what is in sight.
use vstd::prelude::*;
use ropey::Rope;
use crate::buffers::Buffer;
use crate::divide;
use crate::layout::Rect;
use crate::text;
use crate::views::TextView;

verus! {

pub open spec fn least(a: int, b: int) -> int {
    if a <= b {
        a
    } else {
        b
    }
}

/// How many rows the lines from `a` up to `b` take beyond one each, where `w`
/// characters fit in a row.
pub open spec fn folds(t: Seq<char>, w: int, a: int, b: int) -> int
    decreases b - a,
{
    if a >= b {
        0
    } else {
        folds(t, w, a, b - 1) + if text::line_len(t, b - 1) > 0 {
            text::line_len(t, b - 1) / w
        } else {
            0
        }
    }
}

/// The place in a line that is nearest to column `x`, in front of the line's
/// last character.
pub open spec fn landing(t: Seq<char>, line: int, x: int) -> int {
    text::line_start(t, line) + least(x, divide::monus(text::line_len(t, line), 1))
}

/// A selection after the cursor has moved: behind the pivot it ends at the
/// cursor, before it it starts there.
pub open spec fn stretched(
    sel: (usize, usize),
    pivot: usize,
    cursor: int,
    len: int,
) -> (usize, usize) {
    if cursor >= pivot {
        (sel.0, least(cursor + 1, len) as usize)
    } else {
        (least(cursor, len) as usize, sel.1)
    }
}

impl TextView {
    pub open spec fn line(self, t: Seq<char>) -> int {
        text::line_of(t, self.cursor as int)
    }

    pub open spec fn column(self, t: Seq<char>) -> int {
        self.cursor - text::line_start(t, self.line(t))
    }

    /// How many lines below the first one can hold the cursor.
    pub open spec fn reach(self, t: Seq<char>, rect: Rect) -> int {
        divide::monus(
            divide::monus(rect.h as int, 2),
            folds(t, divide::monus(rect.w as int, 5), self.off as int, self.line(t)),
        )
    }

    /// The view with the line of the cursor in sight.
    pub open spec fn scrolled(self, t: Seq<char>, rect: Rect) -> TextView {
        TextView {
            off: if self.line(t) < self.off {
                self.line(t)
            } else if self.line(t) > self.off + self.reach(t, rect) {
                self.line(t) - self.reach(t, rect)
            } else {
                self.off as int
            } as usize,
            ..self
        }
    }

    /// The cursor is in the text, and where a line is folded there is room to
    /// fold it.
    pub open spec fn can_scroll(self, t: Seq<char>, rect: Rect) -> bool {
        &&& self.cursor <= t.len()
        &&& rect.w > 5 || forall|k: int|
            self.off <= k < self.line(t) ==> #[trigger] text::line_len(t, k) == 0
    }

    pub open spec fn at(self, cursor: int) -> TextView {
        TextView { cursor: cursor as usize, ..self }
    }

    pub open spec fn unselected(self) -> TextView {
        TextView { selection: None, ..self }
    }

    /// One line up, before the view scrolls.
    pub open spec fn raised(self, t: Seq<char>) -> TextView {
        if self.line(t) > 0 {
            self.at(landing(t, self.line(t) - 1, self.prefered_x as int))
        } else {
            self
        }
    }

    /// One line down, before the view scrolls.
    pub open spec fn lowered(self, t: Seq<char>) -> TextView {
        self.at(landing(t, self.line(t) + 1, self.prefered_x as int))
    }

    pub open spec fn is_last_line(self, t: Seq<char>) -> bool {
        self.line(t) + 1 >= text::line_count(t)
    }

    /// The cursor is not in front of the last character of its line.
    pub open spec fn is_line_end(self, t: Seq<char>) -> bool {
        self.cursor >= text::line_start(t, self.line(t)) + divide::monus(
            text::line_len(t, self.line(t)),
            1,
        )
    }

    pub open spec fn to_column(self, t: Seq<char>, column: int) -> TextView {
        TextView {
            prefered_x: column as usize,
            ..self.at(text::line_start(t, self.line(t)) + column)
        }
    }

    pub open spec fn moved_up(self, t: Seq<char>, rect: Rect) -> TextView {
        if self.line(t) > 0 {
            self.raised(t).unselected().scrolled(t, rect)
        } else {
            self.scrolled(t, rect)
        }
    }

    pub open spec fn moved_down(self, t: Seq<char>, rect: Rect) -> TextView {
        if self.is_last_line(t) {
            self
        } else {
            self.lowered(t).unselected().scrolled(t, rect)
        }
    }

    pub open spec fn moved_right(self, t: Seq<char>) -> TextView {
        if self.is_line_end(t) {
            self
        } else {
            self.to_column(t, self.column(t) + 1).unselected()
        }
    }

    pub open spec fn moved_left(self, t: Seq<char>) -> TextView {
        if self.column(t) > 0 {
            self.to_column(t, self.column(t) - 1).unselected()
        } else {
            self
        }
    }

    /// With the start of the selection as the pivot.
    pub open spec fn stretched_at_start(self, t: Seq<char>) -> TextView {
        TextView {
            selection: Some(
                stretched(
                    self.selection->0,
                    (self.selection->0).0,
                    self.cursor as int,
                    t.len() as int,
                ),
            ),
            ..self
        }
    }

    /// With the end of the selection as the pivot.
    pub open spec fn stretched_at_end(self, t: Seq<char>) -> TextView {
        TextView {
            selection: Some(
                stretched(
                    self.selection->0,
                    (self.selection->0).1,
                    self.cursor as int,
                    t.len() as int,
                ),
            ),
            ..self
        }
    }

    pub open spec fn selection_moved_up(self, t: Seq<char>, rect: Rect) -> TextView {
        if self.line(t) > 0 {
            self.raised(t).stretched_at_start(t).scrolled(t, rect)
        } else {
            self.scrolled(t, rect)
        }
    }

    pub open spec fn selection_moved_down(self, t: Seq<char>, rect: Rect) -> TextView {
        if self.is_last_line(t) {
            self
        } else {
            self.lowered(t).stretched_at_end(t).scrolled(t, rect)
        }
    }

    pub open spec fn selection_moved_right(self, t: Seq<char>) -> TextView {
        if self.is_line_end(t) {
            self
        } else {
            self.to_column(t, self.column(t) + 1).stretched_at_end(t)
        }
    }

    pub open spec fn selection_moved_left(self, t: Seq<char>) -> TextView {
        if self.column(t) > 0 {
            self.to_column(t, self.column(t) - 1).stretched_at_start(t)
        } else {
            self
        }
    }

    /// A line further up exists only with the means to scroll to it.
    pub open spec fn can_move_up(self, t: Seq<char>, rect: Rect) -> bool {
        self.cursor <= t.len() && self.raised(t).can_scroll(t, rect)
    }

    pub open spec fn can_move_down(self, t: Seq<char>, rect: Rect) -> bool {
        self.cursor <= t.len() && (self.is_last_line(t) || self.lowered(t).can_scroll(t, rect))
    }
}

/// No line is wider than the text, so neither are the folds.
pub proof fn lemma_folds_bound(t: Seq<char>, w: int, a: int, b: int)
    requires
        0 <= a <= b,
        w > 0 || forall|k: int| a <= k < b ==> #[trigger] text::line_len(t, k) == 0,
    ensures
        0 <= folds(t, w, a, b) <= text::line_start(t, b) - text::line_start(t, a) <= t.len(),
    decreases b - a,
{
    text::lemma_line_starts_ordered(t, a, b);
    if a < b {
        lemma_folds_bound(t, w, a, b - 1);
        text::lemma_line_starts_ordered(t, a, b - 1);
        text::lemma_line_starts_ordered(t, b - 1, b);
        let n = text::line_len(t, b - 1);
        if n > 0 {
            assert(0 <= n / w <= n) by (nonlinear_arith)
                requires
                    n > 0,
                    w > 0,
            ;
        }
    }
}

/// Where the cursor lands is in the text, on that line.
pub proof fn lemma_landing(t: Seq<char>, line: int, x: int)
    requires
        0 <= line < text::line_count(t),
        0 <= x,
    ensures
        0 <= text::line_start(t, line) <= landing(t, line, x) <= text::line_start(t, line + 1)
            <= t.len(),
        landing(t, line, x) < text::line_start(t, line + 1) || text::line_len(t, line) == 0,
{
    text::lemma_line_starts_ordered(t, line, line + 1);
}

fn min_usize(a: usize, b: usize) -> (m: usize)
    ensures
        m == least(a as int, b as int),
{
    if a <= b {
        a
    } else {
        b
    }
}

/// A selection after the cursor has moved.
fn stretch(sel: (usize, usize), pivot: usize, cursor: usize, len: usize) -> (res: (usize, usize))
    requires
        cursor < usize::MAX,
    ensures
        res == stretched(sel, pivot, cursor as int, len as int),
{
    if cursor >= pivot {
        (sel.0, min_usize(cursor + 1, len))
    } else {
        (min_usize(cursor, len), sel.1)
    }
}

impl TextView {
    /// Brings the line of the cursor into sight.
    pub fn scroll(&mut self, rect: &Rect, buffer: &Buffer)
        requires
            old(self).can_scroll(buffer@.text, *rect),
        ensures
            *final(self) == old(self).scrolled(buffer@.text, *rect),
    {
        let ghost t = buffer@.text;
        let ghost before = *self;
        let line: usize = text::rope_char_to_line(&buffer.buf, self.cursor);
        let width: usize = rect.w.saturating_sub(5) as usize;
        let mut wrap_off: usize = 0;
        let mut line_idx: usize = self.off;
        proof {
            text::lemma_line_at(t, self.cursor as int);
        }
        while line_idx < line
            invariant
                before.off <= line_idx,
                line_idx <= line || line_idx == before.off,
                t == buffer@.text,
                before.can_scroll(t, *rect),
                line == before.line(t),
                line < text::line_count(t),
                width == divide::monus(rect.w as int, 5),
                wrap_off == folds(t, width as int, before.off as int, line_idx as int),
            decreases line - line_idx,
        {
            let len: usize = text::rope_line_len(&buffer.buf, line_idx);
            proof {
                lemma_folds_bound(t, width as int, before.off as int, line_idx + 1);
            }
            let _total: usize = text::rope_len_chars(&buffer.buf);
            assert(folds(t, width as int, before.off as int, line_idx + 1) <= _total);
            if len > 0 {
                wrap_off = wrap_off + len / width;
            }
            line_idx = line_idx + 1;
        }
        proof {
            lemma_folds_bound(
                t,
                width as int,
                before.off as int,
                if before.off <= line {
                    line as int
                } else {
                    before.off as int
                },
            );
        }
        let height: usize = (rect.h.saturating_sub(2) as usize).saturating_sub(wrap_off);
        if line < self.off {
            self.off = line;
        } else if line - self.off > height {
            self.off = line - height;
        }
    }

    pub fn move_up(&mut self, rect: &Rect, buffer: &Buffer)
        requires
            old(self).can_move_up(buffer@.text, *rect),
        ensures
            *final(self) == old(self).moved_up(buffer@.text, *rect),
    {
        if self.raise(buffer) {
            self.selection = None;
        }
        self.scroll(rect, buffer);
    }

    pub(crate) fn raise(&mut self, buffer: &Buffer) -> (moved: bool)
        requires
            old(self).cursor <= buffer@.text.len(),
        ensures
            *final(self) == old(self).raised(buffer@.text),
            moved == (old(self).line(buffer@.text) > 0),
    {
        let ghost t = buffer@.text;
        let line: usize = text::rope_char_to_line(&buffer.buf, self.cursor);
        proof {
            text::lemma_line_at(t, self.cursor as int);
        }
        if line > 0 {
            proof {
                lemma_landing(t, line - 1, self.prefered_x as int);
            }
            let line: usize = line - 1;
            let line_start: usize = text::rope_line_to_char(&buffer.buf, line);
            let line_len: usize = text::rope_line_len(&buffer.buf, line);
            let _total: usize = text::rope_len_chars(&buffer.buf);
            let col: usize = min_usize(self.prefered_x, line_len.saturating_sub(1));
            self.cursor = line_start + col;
            true
        } else {
            false
        }
    }

    pub(crate) fn lower(&mut self, buffer: &Buffer) -> (moved: bool)
        requires
            old(self).cursor <= buffer@.text.len(),
        ensures
            moved == !old(self).is_last_line(buffer@.text),
            moved ==> *final(self) == old(self).lowered(buffer@.text),
            !moved ==> *final(self) == *old(self),
    {
        let ghost t = buffer@.text;
        let len_lines: usize = text::rope_len_lines(&buffer.buf);
        let line: usize = text::rope_char_to_line(&buffer.buf, self.cursor);
        proof {
            text::lemma_line_at(t, self.cursor as int);
        }
        if line + 1 < len_lines {
            proof {
                lemma_landing(t, line + 1, self.prefered_x as int);
            }
            let line: usize = line + 1;
            let start: usize = text::rope_line_to_char(&buffer.buf, line);
            let len: usize = text::rope_line_len(&buffer.buf, line);
            let _total: usize = text::rope_len_chars(&buffer.buf);
            let col: usize = min_usize(self.prefered_x, len.saturating_sub(1));
            self.cursor = start + col;
            true
        } else {
            false
        }
    }

    pub fn move_down(&mut self, rect: &Rect, buffer: &Buffer)
        requires
            old(self).can_move_down(buffer@.text, *rect),
        ensures
            *final(self) == old(self).moved_down(buffer@.text, *rect),
    {
        if self.lower(buffer) {
            self.selection = None;
            self.scroll(rect, buffer);
        }
    }

    pub(crate) fn step_right(&mut self, buffer: &Buffer) -> (moved: bool)
        requires
            old(self).cursor <= buffer@.text.len(),
        ensures
            moved == !old(self).is_line_end(buffer@.text),
            moved ==> *final(self) == old(self).to_column(
                buffer@.text,
                old(self).column(buffer@.text) + 1,
            ),
            moved ==> old(self).cursor < buffer@.text.len() && final(self).cursor
                == old(self).cursor + 1,
            !moved ==> *final(self) == *old(self),
    {
        let ghost t = buffer@.text;
        let line: usize = text::rope_char_to_line(&buffer.buf, self.cursor);
        proof {
            text::lemma_line_at(t, self.cursor as int);
        }
        let line_start: usize = text::rope_line_to_char(&buffer.buf, line);
        let line_len: usize = text::rope_line_len(&buffer.buf, line);
        let _total: usize = text::rope_len_chars(&buffer.buf);
        if self.cursor < line_start + line_len.saturating_sub(1) {
            let col: usize = self.cursor - line_start + 1;
            self.prefered_x = col;
            self.cursor = line_start + col;
            true
        } else {
            false
        }
    }

    pub(crate) fn step_left(&mut self, buffer: &Buffer) -> (moved: bool)
        requires
            old(self).cursor <= buffer@.text.len(),
        ensures
            moved == (old(self).column(buffer@.text) > 0),
            moved ==> *final(self) == old(self).to_column(
                buffer@.text,
                old(self).column(buffer@.text) - 1,
            ),
            moved ==> final(self).cursor < old(self).cursor,
            !moved ==> *final(self) == *old(self),
    {
        let ghost t = buffer@.text;
        let line: usize = text::rope_char_to_line(&buffer.buf, self.cursor);
        proof {
            text::lemma_line_at(t, self.cursor as int);
        }
        let line_start: usize = text::rope_line_to_char(&buffer.buf, line);
        if self.cursor > line_start {
            let col: usize = self.cursor - line_start - 1;
            self.prefered_x = col;
            self.cursor = line_start + col;
            true
        } else {
            false
        }
    }

    pub fn move_right(&mut self, buffer: &Buffer)
        requires
            old(self).cursor <= buffer@.text.len(),
        ensures
            *final(self) == old(self).moved_right(buffer@.text),
    {
        if self.step_right(buffer) {
            self.selection = None;
        }
    }

    pub fn move_left(&mut self, buffer: &Buffer)
        requires
            old(self).cursor <= buffer@.text.len(),
        ensures
            *final(self) == old(self).moved_left(buffer@.text),
    {
        if self.step_left(buffer) {
            self.selection = None;
        }
    }

    fn stretch_at_start(&mut self, buffer: &Buffer)
        requires
            old(self).selection is Some,
            old(self).cursor < usize::MAX,
        ensures
            *final(self) == old(self).stretched_at_start(buffer@.text),
    {
        let sel: (usize, usize) = self.selection.unwrap();
        let len: usize = text::rope_len_chars(&buffer.buf);
        self.selection = Some(stretch(sel, sel.0, self.cursor, len));
    }

    fn stretch_at_end(&mut self, buffer: &Buffer)
        requires
            old(self).selection is Some,
            old(self).cursor < usize::MAX,
        ensures
            *final(self) == old(self).stretched_at_end(buffer@.text),
    {
        let sel: (usize, usize) = self.selection.unwrap();
        let len: usize = text::rope_len_chars(&buffer.buf);
        self.selection = Some(stretch(sel, sel.1, self.cursor, len));
    }

    pub fn move_selection_up(&mut self, rect: &Rect, buffer: &Buffer)
        requires
            old(self).can_move_up(buffer@.text, *rect),
            old(self).line(buffer@.text) > 0 ==> old(self).selection is Some,
            buffer@.text.len() < usize::MAX,
        ensures
            *final(self) == old(self).selection_moved_up(buffer@.text, *rect),
    {
        if self.raise(buffer) {
            self.stretch_at_start(buffer);
        }
        self.scroll(rect, buffer);
    }

    pub fn move_selection_down(&mut self, rect: &Rect, buffer: &Buffer)
        requires
            old(self).can_move_down(buffer@.text, *rect),
            !old(self).is_last_line(buffer@.text) ==> old(self).selection is Some,
            buffer@.text.len() < usize::MAX,
        ensures
            *final(self) == old(self).selection_moved_down(buffer@.text, *rect),
    {
        if self.lower(buffer) {
            self.stretch_at_end(buffer);
            self.scroll(rect, buffer);
        }
    }

    pub fn move_selection_right(&mut self, buffer: &Buffer)
        requires
            old(self).cursor <= buffer@.text.len(),
            !old(self).is_line_end(buffer@.text) ==> old(self).selection is Some,
            buffer@.text.len() < usize::MAX,
        ensures
            *final(self) == old(self).selection_moved_right(buffer@.text),
    {
        if self.step_right(buffer) {
            self.stretch_at_end(buffer);
        }
    }

    pub fn move_selection_left(&mut self, buffer: &Buffer)
        requires
            old(self).cursor <= buffer@.text.len(),
            old(self).column(buffer@.text) > 0 ==> old(self).selection is Some,
        ensures
            *final(self) == old(self).selection_moved_left(buffer@.text),
    {
        if self.step_left(buffer) {
            self.stretch_at_start(buffer);
        }
    }
}

impl TextView {
    /// Whether the line of the cursor can be brought into sight.
    pub fn may_scroll(&self, rect: &Rect, rope: &Rope) -> (res: bool)
        ensures
            res == self.can_scroll(text::rope_text(*rope), *rect),
    {
        let ghost t = text::rope_text(*rope);
        if self.cursor > text::rope_len_chars(rope) {
            return false;
        }
        let line: usize = text::rope_char_to_line(rope, self.cursor);
        proof {
            text::lemma_line_at(t, self.cursor as int);
            assert forall|k: int| self.off <= k < line implies #[trigger] text::line_len(t, k)
                >= 1 by {
                text::lemma_inner_line(t, k);
            }
            if self.off < line {
                assert(text::line_len(t, self.off as int) >= 1);
            }
        }
        rect.w > 5 || line <= self.off
    }

    /// Whether the cursor can go up.
    pub fn may_move_up(&self, rect: &Rect, buffer: &Buffer) -> (res: bool)
        ensures
            res == self.can_move_up(buffer@.text, *rect),
    {
        if self.cursor > text::rope_len_chars(&buffer.buf) {
            return false;
        }
        let mut v: TextView = *self;
        v.raise(buffer);
        v.may_scroll(rect, &buffer.buf)
    }

    /// Whether the cursor can go down.
    pub fn may_move_down(&self, rect: &Rect, buffer: &Buffer) -> (res: bool)
        ensures
            res == self.can_move_down(buffer@.text, *rect),
    {
        if self.cursor > text::rope_len_chars(&buffer.buf) {
            return false;
        }
        let mut v: TextView = *self;
        !v.lower(buffer) || v.may_scroll(rect, &buffer.buf)
    }
}

// ---- what follows

/// A position between the start of a line and the start of the next one is on
/// that line.
pub proof fn lemma_on_line(t: Seq<char>, i: int, k: int)
    requires
        0 <= i <= t.len(),
        0 <= k < text::line_count(t),
        text::line_start(t, k) <= i,
        i < text::line_start(t, k + 1) || k + 1 >= text::line_count(t),
    ensures
        text::line_of(t, i) == k,
{
    text::lemma_line_holds(t, i, k);
    text::lemma_line_at(t, i);
    if k + 1 < text::line_count(t) {
        text::lemma_line_holds(t, i, k + 1);
    }
}

/// Left and right go one character at most, and never off the line.
pub proof fn law_sideways(v: TextView, t: Seq<char>)
    requires
        v.cursor <= t.len() <= usize::MAX,
    ensures
        v.moved_left(t).line(t) == v.line(t),
        v.moved_right(t).line(t) == v.line(t),
        v.cursor - 1 <= v.moved_left(t).cursor <= v.cursor,
        v.cursor <= v.moved_right(t).cursor <= v.cursor + 1,
        v.moved_right(t).cursor <= t.len(),
{
    let line = v.line(t);
    text::lemma_line_at(t, v.cursor as int);
    text::lemma_line_starts_ordered(t, line, line + 1);
    if v.column(t) > 0 {
        lemma_on_line(t, v.cursor - 1, line);
    }
    if !v.is_line_end(t) {
        lemma_on_line(t, v.cursor + 1, line);
    }
}

/// Up goes to the line above, as long as there is one, and down to the line
/// below.
pub proof fn law_up_and_down(v: TextView, t: Seq<char>, rect: Rect)
    requires
        v.cursor <= t.len() <= usize::MAX,
    ensures
        v.moved_up(t, rect).cursor <= t.len(),
        v.moved_down(t, rect).cursor <= t.len(),
        v.moved_up(t, rect).line(t) == divide::monus(v.line(t), 1),
        v.moved_down(t, rect).line(t) == least(v.line(t) + 1, text::line_count(t) - 1),
{
    let line = v.line(t);
    let x = v.prefered_x as int;
    text::lemma_line_at(t, v.cursor as int);
    if line > 0 {
        lemma_landing(t, line - 1, x);
        text::lemma_inner_line(t, line - 1);
        lemma_on_line(t, landing(t, line - 1, x), line - 1);
    }
    if !v.is_last_line(t) {
        lemma_landing(t, line + 1, x);
        if line + 2 < text::line_count(t) {
            text::lemma_inner_line(t, line + 1);
        }
        lemma_on_line(t, landing(t, line + 1, x), line + 1);
    }
}

/// After scrolling, the line of the cursor is in sight: not above the first
/// line shown, and no further below it than the view has rows for text.
pub proof fn law_in_sight(v: TextView, t: Seq<char>, rect: Rect)
    requires
        v.can_scroll(t, rect),
        t.len() <= usize::MAX,
    ensures
        v.scrolled(t, rect).off <= v.line(t),
        v.line(t) - v.scrolled(t, rect).off <= divide::monus(rect.h as int, 2),
        v.scrolled(t, rect).cursor == v.cursor,
{
    text::lemma_line_at(t, v.cursor as int);
    let w = divide::monus(rect.w as int, 5);
    if v.off <= v.line(t) {
        lemma_folds_bound(t, w, v.off as int, v.line(t));
    } else {
        assert(folds(t, w, v.off as int, v.line(t)) == 0);
    }
}

proof fn lemma_folds_later(t: Seq<char>, w: int, a: int, m: int, b: int)
    requires
        0 <= a <= m <= b,
        w > 0 || forall|k: int| a <= k < b ==> #[trigger] text::line_len(t, k) == 0,
    ensures
        folds(t, w, m, b) <= folds(t, w, a, b),
    decreases b - m,
{
    if m < b {
        lemma_folds_later(t, w, a, m, b - 1);
    } else {
        lemma_folds_bound(t, w, a, b);
    }
}

/// Scrolling a second time changes nothing.
pub proof fn law_scrolled_once(v: TextView, t: Seq<char>, rect: Rect)
    requires
        v.can_scroll(t, rect),
        t.len() <= usize::MAX,
    ensures
        v.scrolled(t, rect).can_scroll(t, rect),
        v.scrolled(t, rect).scrolled(t, rect) == v.scrolled(t, rect),
{
    let s = v.scrolled(t, rect);
    let w = divide::monus(rect.w as int, 5);
    let line = v.line(t);
    law_in_sight(v, t, rect);
    text::lemma_line_at(t, v.cursor as int);
    if v.off <= line {
        lemma_folds_later(t, w, v.off as int, s.off as int, line);
        lemma_folds_bound(t, w, s.off as int, line);
    }
}

pub proof fn lemma_no_folds(t: Seq<char>, w: int, a: int, b: int)
    requires
        0 <= a,
        forall|k: int| a <= k < b ==> #[trigger] text::line_len(t, k) < w,
    ensures
        folds(t, w, a, b) == 0,
    decreases b - a,
{
    if a < b {
        lemma_no_folds(t, w, a, b - 1);
        let n = text::line_len(t, b - 1);
        if n > 0 {
            assert(n / w == 0) by (nonlinear_arith)
                requires
                    0 < n < w,
            ;
        }
    }
}

/// A view stays where it is while the line of the cursor is in sight and no
/// line above it is folded.
pub proof fn law_scrolled_no_further(v: TextView, t: Seq<char>, rect: Rect)
    requires
        v.off <= v.line(t) <= v.off + divide::monus(rect.h as int, 2),
        forall|k: int|
            v.off <= k < v.line(t) ==> #[trigger] text::line_len(t, k) < rect.w - 5,
    ensures
        v.scrolled(t, rect) == v,
{
    lemma_no_folds(t, divide::monus(rect.w as int, 5), v.off as int, v.line(t));
}

} // verus!
