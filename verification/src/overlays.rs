//! What stands where on the screen of the command line and of the completion
//! list.
use vstd::prelude::*;
use crate::auto_complete::AutoCompleteView;
use crate::cmd_line::CmdLineView;
use crate::display;
use crate::editor::CMDLINE;
use crate::layout::Rect;
use crate::scene::Scene;
use crate::screen;
use crate::screen::{Cell, Color, ScreenView};
use crate::sketch;
use crate::sketch_line;
use crate::sketch_line::Entry;
use crate::strings;
use crate::typing;

verus! {

/// The part of the screen is on it.
pub open spec fn on_screen(s: ScreenView, rect: Rect) -> bool {
    &&& s.wf()
    &&& rect.h > 0
    &&& rect.x + rect.w <= s.width
    &&& rect.y + rect.h <= s.height
}

/// A character in the colours of the text, or on the ground of what is chosen.
pub open spec fn lit(c: char, chosen: bool) -> Cell {
    Cell {
        c,
        fg: Color::White,
        bg: if chosen {
            Color::Rgb { r: 20, g: 140, b: 240 }
        } else {
            Color::Rgb { r: 0, g: 0, b: 0 }
        },
    }
}

// ---- the command line

/// The text of the command line stands from the left on in its row, with blanks
/// behind it; no other row changes.
pub proof fn law_line_shown(s: ScreenView, l: CmdLineView, rect: Rect, x: int, y: int)
    requires
        on_screen(s, rect),
        l.selection is None,
        0 <= x < s.width,
        0 <= y < s.height,
    ensures
        ({
            let c = s.with_cmd_line(l, rect).cell(x, y);
            let i = x - rect.x;
            if y == rect.y && 0 <= i < l.input.len() {
                c == lit(l.input[i], false)
            } else if y == rect.y && 0 <= i < rect.w {
                c == lit(' ', false)
            } else {
                c == s.cell(x, y)
            }
        }),
{
    lemma_line_text(s, l, rect, x, y);
}

proof fn lemma_line_text(s: ScreenView, l: CmdLineView, rect: Rect, x: int, y: int)
    requires
        on_screen(s, rect),
        0 <= x < s.width,
        0 <= y < s.height,
    ensures
        ({
            let m = CmdLineView { selection: None, ..l };
            let t = s.with_cmd_line(m, rect);
            let c = t.cell(x, y);
            let i = x - rect.x;
            &&& t.wf()
            &&& t.width == s.width
            &&& t.height == s.height
            &&& if y == rect.y && 0 <= i < l.input.len() {
                c == lit(l.input[i], false)
            } else if y == rect.y && 0 <= i < rect.w {
                c == lit(' ', false)
            } else {
                c == s.cell(x, y)
            }
        }),
{
    let (fg, bg) = (screen::text_fg(), screen::text_bg());
    let blanks = sketch::repeated(' ', rect.w as int);
    let t = s.with_string(rect.x as int, rect.y as int, blanks, fg, bg);
    display::lemma_string_cell(s, rect.x as int, rect.y as int, blanks, fg, bg, x, y);
    display::lemma_string_cell(t, rect.x as int, rect.y as int, l.input, fg, bg, x, y);
}

/// What is selected stands on another ground, and nothing else does.
pub proof fn law_line_selection_shown(
    s: ScreenView,
    l: CmdLineView,
    a: Seq<char>,
    m: Seq<char>,
    b: Seq<char>,
    p: usize,
    q: usize,
    rect: Rect,
    i: int,
)
    requires
        on_screen(s, rect),
        l.input == a + m + b,
        l.selection == Some((p, q)),
        p == strings::utf8_len(a),
        q == strings::utf8_len(a + m),
        0 <= i < l.input.len(),
        rect.x + i < s.width,
        a.len() <= u16::MAX,
    ensures
        s.with_cmd_line(l, rect).cell(rect.x + i, rect.y as int) == lit(
            l.input[i],
            a.len() <= i < a.len() + m.len(),
        ),
{
    let bare = CmdLineView { selection: None, ..l };
    let t = s.with_cmd_line(bare, rect);
    lemma_line_text(s, l, rect, rect.x + i, rect.y as int);
    typing::law_selected_in_line(l, a, m, b, p, q);
    assert(l.input.take(a.len() as int) =~= a);
    strings::lemma_char_at(l.input, a.len() as int);
    display::lemma_string_cell(
        t,
        rect.x + a.len(),
        rect.y as int,
        m,
        screen::text_fg(),
        screen::selection_bg(),
        rect.x + i,
        rect.y as int,
    );
}

/// Where each character takes one byte, the cursor of the command line stands
/// on the character behind those in front of it, also while the completion list
/// has the focus.
pub proof fn law_line_cursor(s: Scene, a: Seq<char>, b: Seq<char>)
    requires
        typing::stands(s.line, a, b),
        strings::utf8_len(a) == a.len(),
        a.len() <= u16::MAX,
        s.nodes.leaves[s.focus.0 as int].comp is AutoComplete || (
        s.nodes.leaves[s.focus.0 as int].comp is CmdLine && s.focus.0 == CMDLINE),
    ensures
        ({
            let rect = s.nodes.leaves[CMDLINE as int].rect;
            let (x, y, _) = s.cursor_of(s.focus);
            x == rect.x + a.len() && y == rect.y
        }),
{
}

// ---- the completion list

/// A cell in which an entry has a character.
pub open spec fn covers(e: Entry, f: Seq<Seq<char>>, px: int, py: int, x: int, y: int) -> bool {
    y == py + e.row && px + e.offset <= x < px + e.offset + f[e.number].len()
}

proof fn lemma_entries_cell(
    s: ScreenView,
    px: int,
    py: int,
    ac: AutoCompleteView,
    es: Seq<Entry>,
    i: int,
    x: int,
    y: int,
)
    requires
        s.wf(),
        0 <= px,
        0 <= py,
        0 <= x < s.width,
        0 <= y < s.height,
        -1 <= i < es.len(),
        forall|k: int| 0 <= k < es.len() ==> (#[trigger] es[k]).offset >= 0 && es[k].row >= 0,
        i >= 0 ==> covers(es[i], ac.filtered, px, py, x, y),
        forall|k: int|
            i < k < es.len() ==> !covers(#[trigger] es[k], ac.filtered, px, py, x, y),
    ensures
        ({
            let t = s.with_entries(px, py, ac, es);
            &&& t.wf()
            &&& t.width == s.width
            &&& t.height == s.height
            &&& t.cell(x, y) == (if i >= 0 {
                lit(
                    ac.filtered[es[i].number][x - px - es[i].offset],
                    ac.selected matches Some(n) && n == es[i].number,
                )
            } else {
                s.cell(x, y)
            })
        }),
    decreases es.len(),
{
    if es.len() > 0 {
        let rest = es.drop_last();
        let e = es.last();
        assert forall|k: int| 0 <= k < rest.len() implies (#[trigger] rest[k]).offset >= 0
            && rest[k].row >= 0 by {
            assert(rest[k] == es[k]);
        }
        if i < es.len() - 1 {
            assert forall|k: int| i < k < rest.len() implies !covers(
                #[trigger] rest[k],
                ac.filtered,
                px,
                py,
                x,
                y,
            ) by {
                assert(rest[k] == es[k]);
            }
            if i >= 0 {
                assert(rest[i] == es[i]);
            }
            lemma_entries_cell(s, px, py, ac, rest, i, x, y);
        } else {
            lemma_entries_shape(s, px, py, ac, rest, x, y);
        }
        assert(e == es[es.len() - 1]);
        display::lemma_string_cell(
            s.with_entries(px, py, ac, rest),
            px + e.offset,
            py + e.row,
            ac.filtered[e.number],
            screen::text_fg(),
            sketch_line::entry_bg(ac.selected, e.number),
            x,
            y,
        );
    }
}

proof fn lemma_entries_shape(
    s: ScreenView,
    px: int,
    py: int,
    ac: AutoCompleteView,
    es: Seq<Entry>,
    x: int,
    y: int,
)
    requires
        s.wf(),
        0 <= px,
        0 <= py,
        0 <= x < s.width,
        0 <= y < s.height,
        forall|k: int| 0 <= k < es.len() ==> (#[trigger] es[k]).offset >= 0 && es[k].row >= 0,
    ensures
        s.with_entries(px, py, ac, es).wf(),
        s.with_entries(px, py, ac, es).width == s.width,
        s.with_entries(px, py, ac, es).height == s.height,
    decreases es.len(),
{
    if es.len() > 0 {
        let rest = es.drop_last();
        let e = es.last();
        assert forall|k: int| 0 <= k < rest.len() implies (#[trigger] rest[k]).offset >= 0
            && rest[k].row >= 0 by {
            assert(rest[k] == es[k]);
        }
        assert(e == es[es.len() - 1]);
        lemma_entries_shape(s, px, py, ac, rest, x, y);
        display::lemma_string_cell(
            s.with_entries(px, py, ac, rest),
            px + e.offset,
            py + e.row,
            ac.filtered[e.number],
            screen::text_fg(),
            sketch_line::entry_bg(ac.selected, e.number),
            x,
            y,
        );
    }
}

/// The entries of the column at hand stand one below the other, those of later
/// columns behind the widest of it.
proof fn lemma_later(
    f: Seq<Seq<char>>,
    c: int,
    row: int,
    offset: int,
    wide: int,
    w: int,
    h: int,
    k: int,
)
    requires
        0 <= row,
        0 <= offset,
        0 <= wide,
        0 <= k < sketch_line::entries_from(f, c, row, offset, wide, w, h).len(),
    ensures
        ({
            let e = sketch_line::entries_from(f, c, row, offset, wide, w, h)[k];
            &&& e.offset >= offset
            &&& e.row >= 0
            &&& (e.offset == offset && e.row >= row) || e.offset > offset + wide
        }),
    decreases
            f.len() - c,
            if row >= h {
                1nat
            } else {
                0nat
            },
{
    if row >= h {
        lemma_later(f, c, 0, offset + wide + 1, 0, w, h, k);
    } else if k > 0 {
        let wider = sketch_line::widest(wide, f[c].len() as int);
        let tail = sketch_line::entries_from(f, c + 1, row + 1, offset, wider, w, h);
        let all = sketch_line::entries_from(f, c, row, offset, wide, w, h);
        assert(all[k] == tail[k - 1]);
        lemma_later(f, c + 1, row + 1, offset, wider, w, h, k - 1);
    }
}

/// The entry `j` places down the column stands in its row, and no later one
/// reaches into it.
proof fn lemma_column(
    f: Seq<Seq<char>>,
    c: int,
    row: int,
    offset: int,
    wide: int,
    w: int,
    h: int,
    j: int,
)
    requires
        0 <= row,
        0 <= offset,
        0 <= wide,
        0 <= j,
        0 <= c,
        row + j < h,
        c + j < f.len(),
        forall|i: int| c <= i <= c + j ==> (#[trigger] f[i]).len() + offset <= w,
    ensures
        ({
            let es = sketch_line::entries_from(f, c, row, offset, wide, w, h);
            &&& es.len() > j
            &&& es[j] == (Entry { offset, row: row + j, number: c + j })
            &&& forall|k: int|
                j < k < es.len() ==> (#[trigger] es[k]).row != row + j || es[k].offset > offset
                    + f[c + j].len()
        }),
    decreases j,
{
    let es = sketch_line::entries_from(f, c, row, offset, wide, w, h);
    let wider = sketch_line::widest(wide, f[c].len() as int);
    let tail = sketch_line::entries_from(f, c + 1, row + 1, offset, wider, w, h);
    assert(f[c].len() + offset <= w);
    assert(es =~= seq![Entry { offset, row, number: c }] + tail);
    if j > 0 {
        lemma_column(f, c + 1, row + 1, offset, wider, w, h, j - 1);
        assert(es[j] == tail[j - 1]);
        assert forall|k: int| j < k < es.len() implies (#[trigger] es[k]).row != row + j
            || es[k].offset > offset + f[c + j].len() by {
            assert(es[k] == tail[k - 1]);
        }
    } else {
        assert forall|k: int| j < k < es.len() implies (#[trigger] es[k]).row != row + j
            || es[k].offset > offset + f[c + j].len() by {
            assert(es[k] == tail[k - 1]);
            lemma_later(f, c + 1, row + 1, offset, wider, w, h, k - 1);
        }
    }
}

/// Below a rule the list shows its entries from the chosen one on, one below
/// the other, and the chosen one on another ground.
pub proof fn law_entries_shown(s: ScreenView, ac: AutoCompleteView, rect: Rect, j: int, x: int)
    requires
        on_screen(s, rect),
        ({
            let first = match ac.selected {
                Some(n) => n as int,
                None => 0,
            };
            &&& 0 <= j < rect.h - 1
            &&& first + j < ac.filtered.len()
            &&& forall|i: int|
                first <= i <= first + j ==> (#[trigger] ac.filtered[i]).len() <= rect.w
            &&& 0 <= x < ac.filtered[first + j].len()
        }),
    ensures
        ({
            let first = match ac.selected {
                Some(n) => n as int,
                None => 0,
            };
            s.with_completions(ac, rect).cell(rect.x + x, rect.y + 1 + j) == lit(
                ac.filtered[first + j][x],
                ac.selected is Some && j == 0,
            )
        }),
{
    let first = sketch_line::first_entry(ac);
    let (px, py) = (rect.x as int, rect.y + 1);
    let (w, h) = (rect.w as int, rect.h - 1);
    let es = sketch_line::entries_from(ac.filtered, first, 0, 0, 0, w, h);
    assert(ac.filtered[first + j].len() <= rect.w);
    lemma_column(ac.filtered, first, 0, 0, 0, w, h, j);
    assert forall|k: int| 0 <= k < es.len() implies (#[trigger] es[k]).offset >= 0 && es[k].row
        >= 0 by {
        lemma_later(ac.filtered, first, 0, 0, 0, w, h, k);
    }
    let t = lemma_under_entries(s, rect, px + x, py + j);
    assert(covers(es[j], ac.filtered, px, py, px + x, py + j));
    lemma_entries_cell(t, px, py, ac, es, j, px + x, py + j);
}

/// The length of the longest of `n` entries from number `c` on, or `wide` where
/// that is more.
spec fn longest(f: Seq<Seq<char>>, c: int, n: int, wide: int) -> int
    decreases n,
{
    if n <= 0 {
        wide
    } else {
        longest(f, c + 1, n - 1, sketch_line::widest(wide, f[c].len() as int))
    }
}

proof fn lemma_longest(f: Seq<Seq<char>>, c: int, n: int, wide: int, m: int)
    requires
        0 <= n,
        0 <= c,
        c + n <= f.len(),
        wide <= m,
        forall|i: int| c <= i < c + n ==> (#[trigger] f[i]).len() <= m,
        wide == m || exists|i: int| c <= i < c + n && (#[trigger] f[i]).len() == m,
    ensures
        longest(f, c, n, wide) == m,
    decreases n,
{
    if n > 0 {
        let wider = sketch_line::widest(wide, f[c].len() as int);
        assert(f[c].len() <= m);
        if wider != m {
            let i = choose|i: int| c <= i < c + n && (#[trigger] f[i]).len() == m;
            assert(i != c);
        }
        lemma_longest(f, c + 1, n - 1, wider, m);
    }
}

/// Behind a full column the next one begins.
proof fn lemma_column_full(
    f: Seq<Seq<char>>,
    c: int,
    row: int,
    offset: int,
    wide: int,
    w: int,
    h: int,
    k: int,
)
    requires
        0 <= row <= h,
        0 < h,
        0 <= offset,
        0 <= wide,
        0 <= c,
        c + (h - row) < f.len(),
        forall|i: int| c <= i < c + (h - row) ==> (#[trigger] f[i]).len() + offset <= w,
        k >= 0,
    ensures
        ({
            let es = sketch_line::entries_from(f, c, row, offset, wide, w, h);
            let n = h - row;
            let next = sketch_line::entries_from(
                f,
                c + n,
                0,
                offset + longest(f, c, n, wide) + 1,
                0,
                w,
                h,
            );
            &&& es.len() == n + next.len()
            &&& k < next.len() ==> es[n + k] == next[k]
        }),
    decreases h - row,
{
    if row < h {
        let es = sketch_line::entries_from(f, c, row, offset, wide, w, h);
        let wider = sketch_line::widest(wide, f[c].len() as int);
        let tail = sketch_line::entries_from(f, c + 1, row + 1, offset, wider, w, h);
        assert(f[c].len() + offset <= w);
        assert(es =~= seq![Entry { offset, row, number: c }] + tail);
        lemma_column_full(f, c + 1, row + 1, offset, wider, w, h, k);
    }
}

/// Where the first column is full, the next one starts at its top, one blank
/// behind the longest entry of the first.
pub proof fn law_next_column_shown(
    s: ScreenView,
    ac: AutoCompleteView,
    rect: Rect,
    m: int,
    x: int,
)
    requires
        on_screen(s, rect),
        rect.h > 1,
        ({
            let first = match ac.selected {
                Some(n) => n as int,
                None => 0,
            };
            let next = first + rect.h - 1;
            &&& next < ac.filtered.len()
            &&& forall|i: int| first <= i < next ==> (#[trigger] ac.filtered[i]).len() <= m
            &&& exists|i: int| first <= i < next && (#[trigger] ac.filtered[i]).len() == m
            &&& m + 1 + ac.filtered[next].len() <= rect.w
            &&& 0 <= x < ac.filtered[next].len()
        }),
    ensures
        ({
            let first = match ac.selected {
                Some(n) => n as int,
                None => 0,
            };
            s.with_completions(ac, rect).cell(rect.x + m + 1 + x, rect.y + 1) == lit(
                ac.filtered[first + rect.h - 1][x],
                false,
            )
        }),
{
    let first = sketch_line::first_entry(ac);
    let f = ac.filtered;
    let (px, py) = (rect.x as int, rect.y + 1);
    let (w, h) = (rect.w as int, rect.h - 1);
    let es = sketch_line::entries_from(f, first, 0, 0, 0, w, h);
    let next = first + h;
    assert(m >= 0) by {
        let i = choose|i: int| first <= i < next && (#[trigger] f[i]).len() == m;
    }
    lemma_longest(f, first, h, 0, m);
    lemma_column_full(f, first, 0, 0, 0, w, h, 0);
    lemma_column(f, next, 0, m + 1, 0, w, h, 0);
    let tail = sketch_line::entries_from(f, next, 0, m + 1, 0, w, h);
    assert(es[h] == tail[0]);
    assert forall|k: int| 0 <= k < es.len() implies (#[trigger] es[k]).offset >= 0 && es[k].row
        >= 0 by {
        lemma_later(f, first, 0, 0, 0, w, h, k);
    }
    let (cx, cy) = (px + m + 1 + x, py);
    let t = lemma_under_entries(s, rect, cx, cy);
    assert forall|k: int| h < k < es.len() implies !covers(#[trigger] es[k], f, px, py, cx, cy) by {
        lemma_column_full(f, first, 0, 0, 0, w, h, k - h);
        assert(es[k] == tail[k - h]);
        assert(tail[k - h].row != 0 || tail[k - h].offset > m + 1 + f[next].len());
    }
    lemma_entries_cell(t, px, py, ac, es, h, cx, cy);
}

/// The list without its entries.
proof fn lemma_under_entries(s: ScreenView, rect: Rect, x: int, y: int) -> (t: ScreenView)
    requires
        on_screen(s, rect),
        0 <= x < s.width,
        0 <= y < s.height,
    ensures
        t == s.blanked(rect).with_string(
            rect.x as int,
            rect.y as int,
            sketch::repeated('─', rect.w as int),
            screen::text_fg(),
            screen::text_bg(),
        ),
        t.wf(),
        t.width == s.width,
        t.height == s.height,
        y == rect.y && rect.x <= x < rect.x + rect.w ==> t.cell(x, y) == lit('─', false),
        rect.y < y < rect.y + rect.h && rect.x <= x < rect.x + rect.w ==> t.cell(x, y) == lit(
            ' ',
            false,
        ),
        !(rect.y <= y < rect.y + rect.h && rect.x <= x < rect.x + rect.w) ==> t.cell(x, y)
            == s.cell(x, y),
{
    let lines = Seq::new(rect.h as nat, |i: int| sketch::repeated(' ', rect.w as int));
    let rule = sketch::repeated('─', rect.w as int);
    let (px, py) = (rect.x as int, rect.y as int);
    display::lemma_lines_cell(s, px, py, lines, x, y);
    display::lemma_string_cell(
        s.blanked(rect),
        px,
        py,
        rule,
        screen::text_fg(),
        screen::text_bg(),
        x,
        y,
    );
    s.blanked(rect).with_string(px, py, rule, screen::text_fg(), screen::text_bg())
}

/// The first row of the list is a rule.
pub proof fn law_rule_shown(s: ScreenView, ac: AutoCompleteView, rect: Rect, x: int)
    requires
        on_screen(s, rect),
        0 <= x < rect.w,
    ensures
        s.with_completions(ac, rect).cell(rect.x + x, rect.y as int) == lit('─', false),
{
    let first = sketch_line::first_entry(ac);
    let (px, py) = (rect.x as int, rect.y + 1);
    let (w, h) = (rect.w as int, rect.h - 1);
    let es = sketch_line::entries_from(ac.filtered, first, 0, 0, 0, w, h);
    assert forall|k: int| 0 <= k < es.len() implies (#[trigger] es[k]).offset >= 0 && es[k].row
        >= 0 by {
        lemma_later(ac.filtered, first, 0, 0, 0, w, h, k);
    }
    let t = lemma_under_entries(s, rect, px + x, rect.y as int);
    lemma_entries_cell(t, px, py, ac, es, -1, px + x, rect.y as int);
}

} // verus!
