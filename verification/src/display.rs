//! What is seen of a view on the screen, cell by cell.
use vstd::prelude::*;
use crate::buffers::{BufferView, IS_SCRATCH};
use crate::layout::Rect;
use crate::motion;
use crate::screen::{Cell, Color, ScreenView};
use crate::sketch;
use crate::sketch::RowView;
use crate::strings;
use crate::terminal::CursorStyle;
use crate::text;
use crate::views::{Mode, TextView};

verus! {

// ---- what a reader of the screen expects

/// A character as it looks: white on black, or, where it is selected, black on
/// blue.
pub open spec fn look(c: char, picked: bool) -> Cell {
    let black = Color::Rgb { r: 0, g: 0, b: 0 };
    if picked {
        Cell { c, fg: black, bg: Color::Rgb { r: 20, g: 140, b: 240 } }
    } else {
        Cell { c, fg: Color::White, bg: black }
    }
}

/// The position is in the selection of the view.
pub open spec fn picked(v: TextView, i: int) -> bool {
    v.selection matches Some(sel) && sel.0 <= i < sel.1
}

/// How many characters of a line are seen: all but the line break.
pub open spec fn seen_len(t: Seq<char>, line: int) -> int {
    let (a, b) = (text::line_start(t, line), text::line_start(t, line + 1));
    if a < b && text::is_break(t[b - 1]) {
        b - a - 1
    } else {
        b - a
    }
}

/// How many rows of `w` cells hold `n` characters: at least one.
pub open spec fn row_count(n: int, w: int) -> int {
    if n <= 0 {
        1
    } else {
        (n - 1) / w + 1
    }
}

/// The rows that the text of the lines from `a` up to `b` takes.
pub open spec fn text_rows(t: Seq<char>, w: int, a: int, b: int) -> int
    decreases b - a,
{
    if a >= b {
        0
    } else {
        row_count(seen_len(t, a), w) + text_rows(t, w, a + 1, b)
    }
}

/// The rows that are numbered for the lines from `a` up to `b`: here the line
/// break counts.
pub open spec fn number_rows(t: Seq<char>, w: int, a: int, b: int) -> int
    decreases b - a,
{
    if a >= b {
        0
    } else {
        row_count(text::line_start(t, a + 1) - text::line_start(t, a), w) + number_rows(
            t,
            w,
            a + 1,
            b,
        )
    }
}

/// The part of the screen is on the screen, with room for numbers and text.
pub open spec fn well_placed(s: ScreenView, rect: Rect) -> bool {
    &&& s.wf()
    &&& rect.w > 5
    &&& rect.h > 0
    &&& rect.x + rect.w <= s.width
    &&& rect.y + rect.h <= s.height
}

// ---- cells

proof fn lemma_cells_apart(w: int, x: int, y: int, a: int, b: int)
    requires
        0 <= x < w,
        0 <= a <= w,
        y != b,
        0 <= y,
        0 <= b,
    ensures
        y < b ==> y * w + x < b * w,
        y > b ==> b * w + a <= y * w,
{
    if y < b {
        assert(y * w + w <= b * w) by (nonlinear_arith)
            requires
                y + 1 <= b,
                0 <= w,
        ;
    } else {
        assert(b * w + w <= y * w) by (nonlinear_arith)
            requires
                b + 1 <= y,
                0 <= w,
        ;
    }
}

proof fn lemma_cell_there(s: ScreenView, x: int, y: int)
    requires
        s.wf(),
        0 <= x < s.width,
        0 <= y < s.height,
    ensures
        0 <= s.index(x, y) < s.cells.len(),
{
    let (w, h) = (s.width as int, s.height as int);
    assert(0 <= y * w && y * w + w <= w * h) by (nonlinear_arith)
        requires
            0 <= y < h,
            0 <= w,
    ;
}

/// A text that was written is in its row, and in no other.
pub proof fn lemma_string_cell(
    s: ScreenView,
    px: int,
    py: int,
    text: Seq<char>,
    fg: Color,
    bg: Color,
    x: int,
    y: int,
)
    requires
        s.wf(),
        0 <= px,
        0 <= py,
        0 <= x < s.width,
        0 <= y < s.height,
    ensures
        s.with_string(px, py, text, fg, bg).cell(x, y) == (if y == py && px <= x < px
            + text.len() {
            Cell { c: text[x - px], fg, bg }
        } else {
            s.cell(x, y)
        }),
        s.with_string(px, py, text, fg, bg).wf(),
        s.with_string(px, py, text, fg, bg).width == s.width,
        s.with_string(px, py, text, fg, bg).height == s.height,
{
    lemma_cell_there(s, x, y);
    let w = s.width as int;
    if py < s.height && y != py {
        let end = motion::least(px + text.len(), w);
        if px <= w {
            lemma_cells_apart(w, x, y, end, py);
        } else {
            lemma_cells_apart(w, x, y, w, py);
        }
    }
}

pub proof fn lemma_lines_cell(
    s: ScreenView,
    px: int,
    py: int,
    lines: Seq<Seq<char>>,
    x: int,
    y: int,
)
    requires
        s.wf(),
        0 <= px,
        0 <= py,
        0 <= x < s.width,
        0 <= y < s.height,
    ensures
        s.with_lines(px, py, lines).cell(x, y) == (if py <= y < py + lines.len() && px <= x < px
            + lines[y - py].len() {
            look(lines[y - py][x - px], false)
        } else {
            s.cell(x, y)
        }),
        s.with_lines(px, py, lines).wf(),
        s.with_lines(px, py, lines).width == s.width,
        s.with_lines(px, py, lines).height == s.height,
    decreases lines.len(),
{
    if lines.len() > 0 {
        let rest = lines.drop_last();
        lemma_lines_cell(s, px, py, rest, x, y);
        lemma_string_cell(
            s.with_lines(px, py, rest),
            px,
            py + lines.len() - 1,
            lines.last(),
            crate::screen::text_fg(),
            crate::screen::text_bg(),
            x,
            y,
        );
        if py <= y < py + rest.len() {
            assert(rest[y - py] == lines[y - py]);
        }
    }
}

proof fn lemma_with_cell_cell(s: ScreenView, px: int, py: int, c: Cell, x: int, y: int)
    requires
        s.wf(),
        0 <= px < s.width,
        0 <= py < s.height,
        0 <= x < s.width,
        0 <= y < s.height,
    ensures
        s.with_cell(px, py, c).cell(x, y) == (if x == px && y == py {
            c
        } else {
            s.cell(x, y)
        }),
        s.with_cell(px, py, c).wf(),
        s.with_cell(px, py, c).width == s.width,
        s.with_cell(px, py, c).height == s.height,
{
    lemma_cell_there(s, px, py);
    lemma_cell_there(s, x, y);
    if y != py {
        lemma_cells_apart(s.width as int, x, y, px + 1, py);
    }
}

proof fn lemma_selected_chars_cell(
    s: ScreenView,
    px: int,
    py: int,
    row: RowView,
    a: int,
    b: int,
    n: int,
    x: int,
    y: int,
)
    requires
        s.wf(),
        0 <= px,
        px + row.text.len() <= s.width,
        0 <= n <= row.text.len(),
        0 <= py < s.height,
        0 <= x < s.width,
        0 <= y < s.height,
    ensures
        ({
            let g = s.with_selected_chars(px, py, row, a, b, n);
            &&& g.wf()
            &&& g.width == s.width
            &&& g.height == s.height
            &&& g.cell(x, y) == (if y == py && px <= x < px + n && a <= row.at + x - px < b {
                look(row.text[x - px], true)
            } else {
                s.cell(x, y)
            })
        }),
    decreases n,
{
    if n > 0 {
        lemma_selected_chars_cell(s, px, py, row, a, b, n - 1, x, y);
        let g = s.with_selected_chars(px, py, row, a, b, n - 1);
        if sketch::in_range(row.at + n - 1, a, b) {
            lemma_with_cell_cell(
                g,
                px + n - 1,
                py,
                sketch::selected_cell(row.text[n - 1]),
                x,
                y,
            );
        }
    }
}

proof fn lemma_selected_rows_cell(
    s: ScreenView,
    px: int,
    py: int,
    rows: Seq<RowView>,
    a: int,
    b: int,
    x: int,
    y: int,
)
    requires
        s.wf(),
        0 <= px < s.width,
        0 <= py,
        py + rows.len() <= s.height,
        forall|i: int| 0 <= i < rows.len() ==> px + (#[trigger] rows[i]).text.len() <= s.width,
        0 <= x < s.width,
        0 <= y < s.height,
    ensures
        ({
            let g = s.with_selected_rows(px, py, rows, a, b);
            let row = rows[y - py];
            &&& g.wf()
            &&& g.width == s.width
            &&& g.height == s.height
            &&& g.cell(x, y) == (if py <= y < py + rows.len() && !row.empty && px <= x < px
                + row.text.len() && a <= row.at + x - px < b {
                look(row.text[x - px], true)
            } else if py <= y < py + rows.len() && row.empty && x == px && a <= row.at < b {
                look(' ', true)
            } else {
                s.cell(x, y)
            })
        }),
    decreases rows.len(),
{
    if rows.len() > 0 {
        let rest = rows.drop_last();
        assert forall|i: int| 0 <= i < rest.len() implies px + (#[trigger] rest[i]).text.len()
            <= s.width by {
            let _ = rows[i];
        }
        lemma_selected_rows_cell(s, px, py, rest, a, b, x, y);
        let g = s.with_selected_rows(px, py, rest, a, b);
        let last = rows[rows.len() - 1];
        let q = py + rows.len() - 1;
        if last.empty {
            if sketch::in_range(last.at, a, b) {
                lemma_with_cell_cell(g, px, q, sketch::selected_cell(' '), x, y);
            }
        } else {
            lemma_selected_chars_cell(g, px, q, last, a, b, last.text.len() as int, x, y);
        }
        if py <= y < py + rest.len() {
            assert(rest[y - py] == rows[y - py]);
        }
    }
}

// ---- rows

proof fn lemma_row_count_step(n: int, w: int)
    requires
        n > w,
        w > 0,
    ensures
        row_count(n, w) == 1 + row_count(n - w, w),
{
    vstd::arithmetic::div_mod::lemma_div_plus_one(n - w - 1, w);
    assert((w + (n - w - 1)) / w == (n - 1) / w);
}

proof fn lemma_row_count_pos(n: int, w: int)
    requires
        w > 0,
    ensures
        row_count(n, w) >= 1,
        n <= w ==> row_count(n, w) == 1,
{
    if n > 0 {
        assert((n - 1) / w >= 0) by (nonlinear_arith)
            requires
                n > 0,
                w > 0,
        ;
        if n <= w {
            vstd::arithmetic::div_mod::lemma_basic_div(n - 1, w);
        }
    }
}

/// The rows that a line is cut into.
proof fn lemma_cut(s: Seq<char>, at: int, start: int, w: int, room: int, k: int)
    requires
        0 <= start < s.len(),
        w > 0,
        0 <= k < room,
        k < row_count(s.len() - start, w),
    ensures
        ({
            let rows = sketch::cut_rows(s, at, start, w, room);
            let from = start + k * w;
            &&& k < rows.len()
            &&& from < s.len()
            &&& rows[k] == (RowView {
                at: at + from,
                text: s.subrange(from, motion::least(from + w, s.len() as int)),
                empty: false,
            })
        }),
    decreases room,
{
    let end = motion::least(start + w, s.len() as int);
    if k > 0 {
        lemma_row_count_pos(s.len() - start, w);
        assert(start + w < s.len());
        lemma_row_count_step(s.len() - start, w);
        lemma_cut(s, at, end, w, room - 1, k - 1);
        assert(w + (k - 1) * w == k * w) by (nonlinear_arith);
    } else {
        assert(0 * w == 0) by (nonlinear_arith);
    }
}

/// As many rows as the line needs, as far as there is room.
proof fn lemma_cut_len(s: Seq<char>, at: int, start: int, w: int, room: int)
    requires
        0 <= start <= s.len(),
        w > 0,
        room >= 0,
    ensures
        sketch::cut_rows(s, at, start, w, room).len() == (if start == s.len() {
            0
        } else {
            motion::least(room, row_count(s.len() - start, w))
        }),
    decreases room,
{
    if start < s.len() && room > 0 {
        let end = motion::least(start + w, s.len() as int);
        lemma_cut_len(s, at, end, w, room - 1);
        lemma_row_count_pos(s.len() - start, w);
        if start + w < s.len() {
            lemma_row_count_step(s.len() - start, w);
            lemma_row_count_pos(s.len() - start - w, w);
        }
    } else {
        lemma_row_count_pos(s.len() - start, w);
    }
}

proof fn lemma_bare(t: Seq<char>, line: int)
    requires
        0 <= line,
    ensures
        0 <= seen_len(t, line),
        0 <= text::line_start(t, line),
        text::line_start(t, line) + seen_len(t, line) <= text::line_start(t, line + 1) <= t.len(),
        sketch::bare_line(t, line) == t.subrange(
            text::line_start(t, line),
            text::line_start(t, line) + seen_len(t, line),
        ),
{
    text::lemma_line_starts_ordered(t, line, line + 1);
    assert(sketch::bare_line(t, line) =~= t.subrange(
        text::line_start(t, line),
        text::line_start(t, line) + seen_len(t, line),
    ));
}

proof fn lemma_text_rows_nonneg(t: Seq<char>, w: int, a: int, b: int)
    requires
        w > 0,
    ensures
        text_rows(t, w, a, b) >= 0,
    decreases b - a,
{
    if a < b {
        lemma_row_count_pos(seen_len(t, a), w);
        lemma_text_rows_nonneg(t, w, a + 1, b);
    }
}

/// Row `k` of a line stands below the rows of the lines above it.
proof fn lemma_row(t: Seq<char>, a: int, w: int, room: int, line: int, k: int)
    requires
        0 <= a <= line < text::line_count(t),
        w > 0,
        0 <= k < row_count(seen_len(t, line), w),
        text_rows(t, w, a, line) + k < room,
    ensures
        ({
            let rows = sketch::rows_from(t, a, w, room);
            let r = text_rows(t, w, a, line) + k;
            let from = text::line_start(t, line) + k * w;
            let end = text::line_start(t, line) + seen_len(t, line);
            &&& 0 <= r < rows.len()
            &&& from <= end <= t.len()
            &&& rows[r] == (RowView {
                at: from,
                text: t.subrange(from, motion::least(from + w, end)),
                empty: seen_len(t, line) == 0,
            })
        }),
    decreases line - a,
{
    let mine = sketch::rows_of_line(t, a, w, room);
    let bare = sketch::bare_line(t, a);
    let at = text::line_start(t, a);
    lemma_bare(t, a);
    lemma_text_rows_nonneg(t, w, a, line);
    if bare.len() > 0 {
        lemma_cut_len(bare, at, 0, w, room);
    }
    if a == line {
        if bare.len() > 0 {
            lemma_cut(bare, at, 0, w, room, k);
            let from = k * w;
            assert(0 <= from) by (nonlinear_arith)
                requires
                    from == k * w,
                    k >= 0,
                    w > 0,
            ;
            let end = motion::least(from + w, bare.len() as int);
            assert(bare.subrange(from, end) =~= t.subrange(at + from, at + end));
        } else {
            assert(k * w == 0) by (nonlinear_arith)
                requires
                    k == 0,
            ;
            assert(t.subrange(at, at) =~= Seq::<char>::empty());
        }
    } else {
        lemma_text_rows_nonneg(t, w, a + 1, line);
        assert(mine.len() == row_count(seen_len(t, a), w));
        lemma_row(t, a + 1, w, room - mine.len(), line, k);
    }
}

proof fn lemma_place(i: int, n: int, w: int)
    requires
        0 <= i < n,
        w > 0,
    ensures
        0 <= i / w < row_count(n, w),
        (i / w) * w + i % w == i,
        0 <= i % w < w,
        (i / w) * w <= i < (i / w) * w + w,
{
    vstd::arithmetic::div_mod::lemma_fundamental_div_mod(i, w);
    vstd::arithmetic::div_mod::lemma_mod_bound(i, w);
    assert((i / w) * w == w * (i / w)) by (nonlinear_arith);
    vstd::arithmetic::div_mod::lemma_div_is_ordered(i, n - 1, w);
    assert(i / w >= 0) by (nonlinear_arith)
        requires
            i >= 0,
            w > 0,
    ;
}

proof fn lemma_sight_len(t: Seq<char>, line: int, w: int, room: int)
    requires
        0 <= line,
        w > 0,
        room >= 0,
    ensures
        sketch::rows_from(t, line, w, room).len() <= room,
        forall|i: int|
            0 <= i < sketch::rows_from(t, line, w, room).len() ==> (#[trigger] sketch::rows_from(
                t,
                line,
                w,
                room,
            )[i]).text.len() <= w,
    decreases text::line_count(t) - line,
{
    if room > 0 && line < text::line_count(t) {
        let mine = sketch::rows_of_line(t, line, w, room);
        let bare = sketch::bare_line(t, line);
        let rows = sketch::rows_from(t, line, w, room);
        if bare.len() > 0 {
            lemma_cut_len(bare, text::line_start(t, line), 0, w, room);
        }
        lemma_sight_len(t, line + 1, w, room - mine.len());
        assert forall|i: int| 0 <= i < rows.len() implies (#[trigger] rows[i]).text.len() <= w by {
            if i < mine.len() {
                if bare.len() > 0 {
                    lemma_cut(bare, text::line_start(t, line), 0, w, room, i);
                }
            } else {
                let rest = sketch::rows_from(t, line + 1, w, room - mine.len());
                assert(rows[i] == rest[i - mine.len()]);
            }
        }
    }
}

/// What the steps of drawing a view make of a cell.
proof fn lemma_view_cell(
    s: ScreenView,
    v: TextView,
    b: BufferView,
    rect: Rect,
    cwd: Seq<char>,
    x: int,
    y: int,
)
    requires
        well_placed(s, rect),
        0 <= x < s.width,
        0 <= y < s.height,
    ensures
        ({
            let g = s.with_view(v, b, rect, cwd);
            let labels = sketch::labels_from(b.text, v.off as int, rect.w - 4, rect.h as int);
            let rows = sketch::rows_from(b.text, v.off as int, rect.w - 5, rect.h - 1);
            let status = sketch::status_line(v, b, cwd);
            let (i, j) = (y - rect.y, x - rect.x);
            let row = rows[i];
            &&& rows.len() <= rect.h - 1
            &&& 0 <= i < rows.len() ==> row.text.len() <= rect.w - 5
            &&& g.wf()
            &&& g.width == s.width
            &&& g.height == s.height
            &&& g.cell(x, y) == (if 0 <= i < rows.len() && !row.empty && 5 <= j < 5
                + row.text.len() && picked(v, row.at + j - 5) {
                look(row.text[j - 5], true)
            } else if 0 <= i < rows.len() && row.empty && j == 5 && picked(v, row.at) {
                look(' ', true)
            } else if 0 <= i < rows.len() && 5 <= j < 5 + row.text.len() {
                look(row.text[j - 5], false)
            } else if i == rect.h - 1 && 0 <= j < status.len() {
                look(status[j], false)
            } else if 0 <= i < labels.len() && 0 <= j < labels[i].len() {
                look(labels[i][j], false)
            } else if 0 <= i < rect.h && 0 <= j < rect.w {
                look(' ', false)
            } else {
                s.cell(x, y)
            })
        }),
{
    let (px, py) = (rect.x as int, rect.y as int);
    let labels = sketch::labels_from(b.text, v.off as int, rect.w - 4, rect.h as int);
    let rows = sketch::rows_in_sight(v, b.text, rect);
    let blanks = Seq::new(rect.h as nat, |i: int| sketch::repeated(' ', rect.w as int));
    let s1 = s.blanked(rect);
    lemma_lines_cell(s, px, py, blanks, x, y);
    let s2 = s1.with_lines(px, py, labels);
    lemma_lines_cell(s1, px, py, labels, x, y);
    let s3 = s1.with_decoration(v, b, rect, cwd);
    lemma_string_cell(
        s2,
        px,
        py + rect.h - 1,
        sketch::status_line(v, b, cwd),
        crate::screen::text_fg(),
        crate::screen::text_bg(),
        x,
        y,
    );
    let s4 = s3.with_text(v, b, rect);
    lemma_lines_cell(s3, px + 5, py, sketch::row_texts(rows), x, y);
    lemma_sight_len(b.text, v.off as int, rect.w - 5, rect.h - 1);
    if let Some(sel) = v.selection {
        assert forall|i: int| 0 <= i < rows.len() implies px + 5 + (#[trigger] rows[i]).text.len()
            <= s4.width by {}
        lemma_selected_rows_cell(s4, px + 5, py, rows, sel.0 as int, sel.1 as int, x, y);
    }
}

// ---- the text

/// Every character of a line in sight is on the screen, five columns in,
/// below the rows of the lines between the first one in sight and its own, and
/// shows whether it is selected.
pub proof fn law_text_shown(
    s: ScreenView,
    v: TextView,
    b: BufferView,
    rect: Rect,
    cwd: Seq<char>,
    line: int,
    i: int,
)
    requires
        well_placed(s, rect),
        v.off <= line < text::line_count(b.text),
        0 <= i < seen_len(b.text, line),
        text_rows(b.text, rect.w - 5, v.off as int, line) + i / (rect.w - 5) < rect.h - 1,
    ensures
        ({
            let w = rect.w - 5;
            let row = text_rows(b.text, w, v.off as int, line) + i / w;
            let at = text::line_start(b.text, line) + i;
            s.with_view(v, b, rect, cwd).cell(rect.x + 5 + i % w, rect.y + row) == look(
                b.text[at],
                picked(v, at),
            )
        }),
{
    let w = rect.w - 5;
    let t = b.text;
    let k = i / w;
    let r = text_rows(t, w, v.off as int, line) + k;
    lemma_bare(t, line);
    lemma_place(i, seen_len(t, line), w);
    lemma_row(t, v.off as int, w, rect.h - 1, line, k);
    lemma_text_rows_nonneg(t, w, v.off as int, line);
    lemma_view_cell(s, v, b, rect, cwd, rect.x + 5 + i % w, rect.y + r);
}

/// The row of a line without text shows nothing but, in its first cell,
/// whether the line is selected.
pub proof fn law_empty_line_shown(
    s: ScreenView,
    v: TextView,
    b: BufferView,
    rect: Rect,
    cwd: Seq<char>,
    line: int,
)
    requires
        well_placed(s, rect),
        text::line_count(b.text) <= 10000,
        v.off <= line < text::line_count(b.text),
        seen_len(b.text, line) == 0,
        text_rows(b.text, rect.w - 5, v.off as int, line) < rect.h - 1,
    ensures
        ({
            let row = text_rows(b.text, rect.w - 5, v.off as int, line);
            s.with_view(v, b, rect, cwd).cell(rect.x + 5, rect.y + row) == look(
                ' ',
                picked(v, text::line_start(b.text, line)),
            )
        }),
{
    let w = rect.w - 5;
    let t = b.text;
    assert(0 * w == 0) by (nonlinear_arith);
    lemma_row_count_pos(0, w);
    lemma_row(t, v.off as int, w, rect.h - 1, line, 0);
    lemma_text_rows_nonneg(t, w, v.off as int, line);
    let r = text_rows(t, w, v.off as int, line);
    lemma_view_cell(s, v, b, rect, cwd, rect.x + 5, rect.y + r);
    lemma_labels_narrow(t, v.off as int, rect.w - 4, rect.h as int);
    let labels = sketch::labels_from(t, v.off as int, rect.w - 4, rect.h as int);
    assert(r < labels.len() ==> labels[r].len() <= 5);
    let row = sketch::rows_from(t, v.off as int, w, rect.h - 1)[r];
    assert(row.at == text::line_start(t, line));
    assert(row.empty == (seen_len(t, line) == 0));
    lemma_bare(t, line);
    assert(row.text.len() == motion::least(w, seen_len(t, line)));
}

/// Behind the end of a line its row is blank.
pub proof fn law_blank_behind(
    s: ScreenView,
    v: TextView,
    b: BufferView,
    rect: Rect,
    cwd: Seq<char>,
    line: int,
    j: int,
)
    requires
        well_placed(s, rect),
        text::line_count(b.text) <= 10000,
        v.off <= line < text::line_count(b.text),
        seen_len(b.text, line) < j + 1,
        0 < j < rect.w - 5,
        text_rows(b.text, rect.w - 5, v.off as int, line) < rect.h - 1,
    ensures
        s.with_view(v, b, rect, cwd).cell(
            rect.x + 5 + j,
            rect.y + text_rows(b.text, rect.w - 5, v.off as int, line),
        ) == look(' ', false),
{
    let w = rect.w - 5;
    let t = b.text;
    assert(0 * w == 0) by (nonlinear_arith);
    lemma_row_count_pos(seen_len(t, line), w);
    lemma_row(t, v.off as int, w, rect.h - 1, line, 0);
    lemma_text_rows_nonneg(t, w, v.off as int, line);
    let r = text_rows(t, w, v.off as int, line);
    lemma_view_cell(s, v, b, rect, cwd, rect.x + 5 + j, rect.y + r);
    lemma_labels_narrow(t, v.off as int, rect.w - 4, rect.h as int);
    let labels = sketch::labels_from(t, v.off as int, rect.w - 4, rect.h as int);
    assert(r < labels.len() ==> labels[r].len() <= 5);
    let row = sketch::rows_from(t, v.off as int, w, rect.h - 1)[r];
    assert(row.at == text::line_start(t, line));
    assert(row.empty == (seen_len(t, line) == 0));
    lemma_bare(t, line);
    assert(row.text.len() == motion::least(w, seen_len(t, line)));
}

/// Lines that fit in one row each stand one below the other, numbers and text
/// alike.
pub proof fn law_lines_in_step(t: Seq<char>, w: int, a: int, b: int)
    requires
        w > 0,
        0 <= a <= b < text::line_count(t),
        forall|k: int| a <= k < b ==> #[trigger] text::line_start(t, k + 1) - text::line_start(t, k) <= w + 1,
    ensures
        text_rows(t, w, a, b) == b - a,
        number_rows(t, w + 1, a, b) == b - a,
    decreases b - a,
{
    if a < b {
        text::lemma_inner_line(t, a);
        text::lemma_line_start(t, a + 1);
        lemma_bare(t, a);
        assert(text::line_start(t, a + 1) - text::line_start(t, a) <= w + 1);
        lemma_row_count_pos(seen_len(t, a), w);
        lemma_row_count_pos(text::line_start(t, a + 1) - text::line_start(t, a), w + 1);
        law_lines_in_step(t, w, a + 1, b);
    }
}

// ---- the margin

proof fn lemma_rows_of_count(t: Seq<char>, line: int, w: int)
    requires
        0 <= line,
        w > 0,
    ensures
        sketch::rows_of(t, line, w) == row_count(
            text::line_start(t, line + 1) - text::line_start(t, line),
            w,
        ),
        sketch::rows_of(t, line, w) >= 1,
{
    text::lemma_line_starts_ordered(t, line, line + 1);
    let n = text::line_start(t, line + 1) - text::line_start(t, line);
    lemma_row_count_pos(n, w);
    if n > 0 {
        vstd::arithmetic::div_mod::lemma_div_plus_one(n - 1, w);
        assert((w + (n - 1)) / w == (n + w - 1) / w);
    } else {
        vstd::arithmetic::div_mod::lemma_basic_div(w - 1, w);
    }
}

proof fn lemma_number_rows_nonneg(t: Seq<char>, w: int, a: int, b: int)
    requires
        w > 0,
    ensures
        number_rows(t, w, a, b) >= 0,
    decreases b - a,
{
    if a < b {
        lemma_row_count_pos(text::line_start(t, a + 1) - text::line_start(t, a), w);
        lemma_number_rows_nonneg(t, w, a + 1, b);
    }
}

proof fn lemma_label(t: Seq<char>, a: int, w: int, room: int, line: int, k: int)
    requires
        0 <= a <= line < text::line_count(t),
        w > 0,
        0 <= k < row_count(text::line_start(t, line + 1) - text::line_start(t, line), w),
        number_rows(t, w, a, line) + k < room,
    ensures
        ({
            let labels = sketch::labels_from(t, a, w, room);
            let r = number_rows(t, w, a, line) + k;
            &&& 0 <= r < labels.len()
            &&& labels[r] == (if k == 0 {
                sketch::number_label(line as nat)
            } else {
                sketch::repeated(' ', 5)
            })
        }),
    decreases line - a,
{
    lemma_rows_of_count(t, a, w);
    lemma_number_rows_nonneg(t, w, a, line);
    let rows = motion::least(sketch::rows_of(t, a, w), room);
    if a < line {
        lemma_number_rows_nonneg(t, w, a + 1, line);
        lemma_label(t, a + 1, w, room - rows, line, k);
    }
}

proof fn lemma_short_decimal(n: nat)
    requires
        n < 10000,
    ensures
        1 <= strings::decimal(n).len() <= 4,
{
    reveal_with_fuel(strings::decimal, 5);
}

proof fn lemma_labels_narrow(t: Seq<char>, line: int, w: int, room: int)
    requires
        0 <= line,
        w > 0,
        text::line_count(t) <= 10000,
    ensures
        forall|i: int|
            0 <= i < sketch::labels_from(t, line, w, room).len() ==> (#[trigger] sketch::labels_from(
                t,
                line,
                w,
                room,
            )[i]).len() <= 5,
    decreases text::line_count(t) - line,
{
    if room > 0 && line < text::line_count(t) {
        lemma_rows_of_count(t, line, w);
        let rows = motion::least(sketch::rows_of(t, line, w), room);
        lemma_labels_narrow(t, line + 1, w, room - rows);
        lemma_short_decimal(line as nat);
        let all = sketch::labels_from(t, line, w, room);
        let rest = sketch::labels_from(t, line + 1, w, room - rows);
        assert forall|i: int| 0 <= i < all.len() implies (#[trigger] all[i]).len() <= 5 by {
            if i >= rows {
                assert(all[i] == rest[i - rows]);
            }
        }
    }
}

/// The number of a line stands in the first four columns of its first row,
/// flush right, and a blank behind it. The other rows of the line have no
/// number.
pub proof fn law_number_shown(
    s: ScreenView,
    v: TextView,
    b: BufferView,
    rect: Rect,
    cwd: Seq<char>,
    line: int,
    k: int,
    j: int,
)
    requires
        well_placed(s, rect),
        v.off <= line < text::line_count(b.text),
        line < 10000,
        0 <= k < row_count(
            text::line_start(b.text, line + 1) - text::line_start(b.text, line),
            rect.w - 4,
        ),
        number_rows(b.text, rect.w - 4, v.off as int, line) + k < rect.h - 1,
        0 <= j < 5,
    ensures
        ({
            let digits = strings::decimal(line as nat);
            let row = number_rows(b.text, rect.w - 4, v.off as int, line) + k;
            let blank = 4 - digits.len();
            &&& 1 <= digits.len() <= 4
            &&& s.with_view(v, b, rect, cwd).cell(rect.x + j, rect.y + row) == look(
                if k == 0 && blank <= j < 4 {
                    digits[j - blank]
                } else {
                    ' '
                },
                false,
            )
        }),
{
    lemma_short_decimal(line as nat);
    lemma_label(b.text, v.off as int, rect.w - 4, rect.h as int, line, k);
    lemma_number_rows_nonneg(b.text, rect.w - 4, v.off as int, line);
    let r = number_rows(b.text, rect.w - 4, v.off as int, line) + k;
    lemma_view_cell(s, v, b, rect, cwd, rect.x + j, rect.y + r);
}

/// Lines that fit in one row each: the row of a line, so many rows down as
/// lines are in sight above it, shows its number and its text.
pub proof fn law_line_and_number(
    s: ScreenView,
    v: TextView,
    b: BufferView,
    rect: Rect,
    cwd: Seq<char>,
    line: int,
    i: int,
    j: int,
)
    requires
        well_placed(s, rect),
        v.off <= line < text::line_count(b.text),
        line < 10000,
        line - v.off < rect.h - 1,
        forall|k: int|
            v.off <= k < line ==> #[trigger] text::line_start(b.text, k + 1) - text::line_start(
                b.text,
                k,
            ) <= rect.w - 4,
        0 <= i < seen_len(b.text, line),
        i < rect.w - 5,
        0 <= j < strings::decimal(line as nat).len(),
    ensures
        ({
            let g = s.with_view(v, b, rect, cwd);
            let digits = strings::decimal(line as nat);
            let y = rect.y + line - v.off;
            &&& g.cell(rect.x + 5 + i, y).c == b.text[text::line_start(b.text, line) + i]
            &&& g.cell(rect.x + 4 - digits.len() + j, y).c == digits[j]
        }),
{
    let w = rect.w - 5;
    law_lines_in_step(b.text, w, v.off as int, line);
    vstd::arithmetic::div_mod::lemma_basic_div(i, w);
    vstd::arithmetic::div_mod::lemma_small_mod(i as nat, w as nat);
    law_text_shown(s, v, b, rect, cwd, line, i);
    lemma_row_count_pos(
        text::line_start(b.text, line + 1) - text::line_start(b.text, line),
        rect.w - 4,
    );
    lemma_short_decimal(line as nat);
    law_number_shown(
        s,
        v,
        b,
        rect,
        cwd,
        line,
        0,
        4 - strings::decimal(line as nat).len() + j,
    );
}

// ---- the status line

/// The last row of a view starts with the mode, the number of the buffer and
/// its name: the file, or the directory where there is none.
pub proof fn law_status_shown(
    s: ScreenView,
    v: TextView,
    b: BufferView,
    rect: Rect,
    cwd: Seq<char>,
    j: int,
)
    requires
        well_placed(s, rect),
        0 <= j,
        rect.x + j < s.width,
    ensures
        ({
            let mode = match v.mode {
                Mode::Normal => seq!['N', 'O', 'R', ' '],
                Mode::Insert => seq!['I', 'N', 'S', ' '],
                Mode::Visual => seq!['V', 'I', 'S', ' '],
            };
            let name = if b.flags & IS_SCRATCH != 0 {
                seq!['[', 'S', 'C', 'R', 'A', 'T', 'C', 'H', ']', ' '] + cwd
            } else {
                match b.file {
                    Some(p) => p,
                    None => seq!['[', 'N', 'E', 'W', '_', 'F', 'I', 'L', 'E', ']', ' '] + cwd,
                }
            };
            let all = mode + strings::decimal(v.buf.idx as nat) + seq![' '] + name;
            j < all.len() ==> s.with_view(v, b, rect, cwd).cell(
                rect.x + j,
                rect.y + rect.h - 1,
            ) == look(all[j], false)
        }),
{
    reveal_strlit("NOR");
    reveal_strlit("INS");
    reveal_strlit("VIS");
    reveal_strlit(" ");
    reveal_strlit("[SCRATCH] ");
    reveal_strlit("[NEW_FILE] ");
    lemma_view_cell(s, v, b, rect, cwd, rect.x + j, rect.y + rect.h - 1);
}

// ---- the rest of the screen

/// A view leaves the rows above and below its part of the screen alone, and
/// the columns to the left.
pub proof fn law_nothing_else_drawn(
    s: ScreenView,
    v: TextView,
    b: BufferView,
    rect: Rect,
    cwd: Seq<char>,
    x: int,
    y: int,
)
    requires
        well_placed(s, rect),
        0 <= x < s.width,
        0 <= y < s.height,
        x < rect.x || y < rect.y || y >= rect.y + rect.h,
    ensures
        s.with_view(v, b, rect, cwd).cell(x, y) == s.cell(x, y),
{
    lemma_view_cell(s, v, b, rect, cwd, x, y);
    lemma_labels_len(b.text, v.off as int, rect.w - 4, rect.h as int);
}

proof fn lemma_labels_len(t: Seq<char>, line: int, w: int, room: int)
    requires
        0 <= line,
        w > 0,
        room >= 0,
    ensures
        sketch::labels_from(t, line, w, room).len() <= room,
    decreases text::line_count(t) - line,
{
    if room > 0 && line < text::line_count(t) {
        lemma_rows_of_count(t, line, w);
        lemma_labels_len(t, line + 1, w, room - motion::least(sketch::rows_of(t, line, w), room));
    }
}

// ---- the cursor

proof fn lemma_rows_between_front(t: Seq<char>, w: int, a: int, b: int)
    requires
        0 <= a,
        w > 0,
    ensures
        sketch::rows_between(t, w, a, b) == number_rows(t, w, a, b),
    decreases b - a,
{
    if a < b {
        lemma_rows_between_split(t, w, a, b);
        lemma_rows_between_front(t, w, a + 1, b);
        lemma_rows_of_count(t, a, w);
    }
}

proof fn lemma_rows_between_split(t: Seq<char>, w: int, a: int, b: int)
    requires
        a < b,
    ensures
        sketch::rows_between(t, w, a, b) == sketch::rows_of(t, a, w) + sketch::rows_between(
            t,
            w,
            a + 1,
            b,
        ),
    decreases b - a,
{
    if a + 1 < b {
        lemma_rows_between_split(t, w, a, b - 1);
    } else {
        assert(sketch::rows_between(t, w, a, a) == 0);
        assert(sketch::rows_between(t, w, a + 1, b) == 0);
    }
}

/// The cursor of a view is in the column of its place in the line, below the
/// lines from the first one in sight on, and looks like the mode.
pub proof fn law_cursor_shown(v: TextView, t: Seq<char>, rect: Rect, line: int)
    requires
        rect.w > 4,
        0 <= line < text::line_count(t),
        text::line_start(t, line) <= v.cursor <= t.len(),
        v.cursor < text::line_start(t, line + 1) || line + 1 == text::line_count(t),
        v.off <= line,
        number_rows(t, rect.w - 4, v.off as int, line) + (v.cursor - text::line_start(t, line)) / (
        rect.w - 4) <= u16::MAX,
    ensures
        ({
            let w = rect.w - 4;
            let column = v.cursor - text::line_start(t, line);
            let (x, y, style) = sketch::view_cursor(v, t, rect);
            &&& x == rect.x + 5 + column % w
            &&& y == rect.y + number_rows(t, w, v.off as int, line) + column / w
            &&& style == (match v.mode {
                Mode::Normal => CursorStyle::SteadyBlock,
                Mode::Insert => CursorStyle::SteadyBar,
                Mode::Visual => CursorStyle::SteadyUnderScore,
            })
        }),
{
    motion::lemma_on_line(t, v.cursor as int, line);
    lemma_rows_between_front(t, rect.w - 4, v.off as int, line);
    lemma_number_rows_nonneg(t, rect.w - 4, v.off as int, line);
    let column = v.cursor - text::line_start(t, line);
    assert(column / (rect.w - 4) >= 0) by (nonlinear_arith)
        requires
            column >= 0,
            rect.w > 4,
    ;
}

/// Where no line is folded, the cursor stands on the character that it is at.
pub proof fn law_cursor_on_char(
    s: ScreenView,
    v: TextView,
    b: BufferView,
    rect: Rect,
    cwd: Seq<char>,
    line: int,
)
    requires
        well_placed(s, rect),
        0 <= line < text::line_count(b.text),
        text::line_start(b.text, line) <= v.cursor < text::line_start(b.text, line) + seen_len(
            b.text,
            line,
        ),
        v.cursor - text::line_start(b.text, line) < rect.w - 5,
        v.off <= line < v.off + rect.h - 1,
        forall|k: int|
            v.off <= k < line ==> #[trigger] text::line_start(b.text, k + 1) - text::line_start(
                b.text,
                k,
            ) <= rect.w - 4,
    ensures
        ({
            let (x, y, _) = sketch::view_cursor(v, b.text, rect);
            s.with_view(v, b, rect, cwd).cell(x, y) == look(
                b.text[v.cursor as int],
                picked(v, v.cursor as int),
            )
        }),
{
    let t = b.text;
    let i = v.cursor - text::line_start(t, line);
    let w = rect.w - 5;
    lemma_bare(t, line);
    law_lines_in_step(t, w, v.off as int, line);
    vstd::arithmetic::div_mod::lemma_basic_div(i, w);
    vstd::arithmetic::div_mod::lemma_small_mod(i as nat, w as nat);
    vstd::arithmetic::div_mod::lemma_basic_div(i, w + 1);
    vstd::arithmetic::div_mod::lemma_small_mod(i as nat, (w + 1) as nat);
    law_cursor_shown(v, t, rect, line);
    law_text_shown(s, v, b, rect, cwd, line, i);
}

} // verus!
