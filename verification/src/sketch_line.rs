//! What the command line and its completion list draw.
use vstd::prelude::*;
use vstd::string::*;
use crate::auto_complete::{AutoComplete, AutoCompleteView};
use crate::cmd_line::{CmdLine, CmdLineView};
use crate::layout::Rect;
use crate::screen;
use crate::screen::{Color, ScreenBuffer, ScreenView};
use crate::sketch;
use crate::strings;

verus! {

// ---- the command line

impl ScreenView {
    /// The command line in its part of the screen.
    pub open spec fn with_cmd_line(self, l: CmdLineView, rect: Rect) -> ScreenView {
        let (x, y) = (rect.x as int, rect.y as int);
        let (fg, bg) = (screen::text_fg(), screen::text_bg());
        let s = self.with_string(x, y, sketch::repeated(' ', rect.w as int), fg, bg);
        if l.input.len() == 0 {
            s
        } else {
            let s = s.with_string(x, y, l.input, fg, bg);
            match l.selection {
                Some(sel) => s.with_string(
                    x + (strings::char_at(l.input, sel.0 as int) as u16),
                    y,
                    l.between(sel),
                    fg,
                    screen::selection_bg(),
                ),
                None => s,
            }
        }
    }
}

pub open spec fn cmd_line_fits(l: CmdLineView, rect: Rect) -> bool {
    l.input.len() > 0 && l.selection is Some ==> {
        &&& l.can_yank()
        &&& rect.x + (strings::char_at(l.input, (l.selection->0).0 as int) as u16) <= u16::MAX
    }
}

/// Draws the command line in its part of the screen.
pub fn cmd_line_sketch(cmd_line: &CmdLine, rect: &Rect, target: &mut ScreenBuffer)
    requires
        old(target)@.wf(),
        cmd_line_fits(cmd_line@, *rect),
    ensures
        final(target)@ == old(target)@.with_cmd_line(cmd_line@, *rect),
        final(target)@.wf(),
        final(target)@.width == old(target)@.width,
        final(target)@.height == old(target)@.height,
{
    let blanks: String = sketch::repeat_char(' ', rect.w as usize);
    target.set_string_xy(
        rect.x,
        rect.y,
        blanks.as_str(),
        screen::text_color(),
        screen::back_color(),
    );
    if cmd_line.input.as_str().is_empty() {
        return ;
    }
    target.set_string_xy(
        rect.x,
        rect.y,
        cmd_line.input.as_str(),
        screen::text_color(),
        screen::back_color(),
    );
    match cmd_line.selection {
        Some(sel) => {
            let s: String = cmd_line.selected(sel);
            let before: usize = strings::char_index(&cmd_line.input, sel.0);
            let at: u16 = rect.x + #[verifier::truncate] (before as u16);
            target.set_string_xy(
                at,
                rect.y,
                s.as_str(),
                screen::text_color(),
                screen::selection_color(),
            );
        },
        None => {},
    }
}

// ---- the completion list

/// An entry of the list on screen: its column, its row, and its number.
#[verifier::ext_equal]
pub struct Entry {
    pub offset: int,
    pub row: int,
    pub number: int,
}

pub open spec fn widest(a: int, b: int) -> int {
    if a >= b {
        a
    } else {
        b
    }
}

/// The entries that are shown, from number `c` on: down a column of `height`
/// rows, then in the next column, which starts one blank behind the widest
/// entry, until one is too wide.
pub open spec fn entries_from(
    f: Seq<Seq<char>>,
    c: int,
    row: int,
    offset: int,
    wide: int,
    w: int,
    height: int,
) -> Seq<Entry>
    decreases
            f.len() - c,
            if row >= height {
                1nat
            } else {
                0nat
            },
{
    if c >= f.len() || height <= 0 {
        Seq::empty()
    } else if row >= height {
        entries_from(f, c, 0, offset + wide + 1, 0, w, height)
    } else if f[c].len() + offset > w {
        Seq::empty()
    } else {
        seq![Entry { offset, row, number: c }] + entries_from(
            f,
            c + 1,
            row + 1,
            offset,
            widest(wide, f[c].len() as int),
            w,
            height,
        )
    }
}

/// All columns on the way are within `u16`.
pub open spec fn entries_fit(
    f: Seq<Seq<char>>,
    c: int,
    row: int,
    offset: int,
    wide: int,
    w: int,
    height: int,
    x: int,
) -> bool
    decreases
            f.len() - c,
            if row >= height {
                1nat
            } else {
                0nat
            },
{
    if c >= f.len() {
        row == 0 || offset + wide + 1 <= u16::MAX
    } else if height <= 0 {
        false
    } else if row >= height {
        &&& offset + wide + 1 <= u16::MAX
        &&& entries_fit(f, c, 0, offset + wide + 1, 0, w, height, x)
    } else if f[c].len() + offset > w {
        true
    } else {
        &&& x + offset <= u16::MAX
        &&& entries_fit(
            f,
            c + 1,
            row + 1,
            offset,
            widest(wide, f[c].len() as int),
            w,
            height,
            x,
        )
    }
}

pub open spec fn entry_bg(selected: Option<usize>, number: int) -> Color {
    match selected {
        Some(s) if s == number => screen::selection_bg(),
        _ => screen::text_bg(),
    }
}

/// The first entry that is shown: the selected one.
pub open spec fn first_entry(ac: AutoCompleteView) -> int {
    match ac.selected {
        Some(s) => s as int,
        None => 0,
    }
}

impl ScreenView {
    pub open spec fn with_entries(
        self,
        x: int,
        y: int,
        ac: AutoCompleteView,
        entries: Seq<Entry>,
    ) -> ScreenView
        decreases entries.len(),
    {
        if entries.len() == 0 {
            self
        } else {
            let e = entries.last();
            self.with_entries(x, y, ac, entries.drop_last()).with_string(
                x + e.offset,
                y + e.row,
                ac.filtered[e.number],
                screen::text_fg(),
                entry_bg(ac.selected, e.number),
            )
        }
    }

    /// The completion list in its part of the screen, below a rule.
    pub open spec fn with_completions(self, ac: AutoCompleteView, rect: Rect) -> ScreenView {
        self.blanked(rect).with_string(
            rect.x as int,
            rect.y as int,
            sketch::repeated('─', rect.w as int),
            screen::text_fg(),
            screen::text_bg(),
        ).with_entries(
            rect.x as int,
            rect.y + 1,
            ac,
            entries_from(ac.filtered, first_entry(ac), 0, 0, 0, rect.w as int, rect.h - 1),
        )
    }
}

pub open spec fn completions_fit(ac: AutoCompleteView, rect: Rect) -> bool {
    &&& sketch::rows_fit(rect)
    &&& rect.h >= 1
    &&& rect.y < u16::MAX
    &&& entries_fit(
        ac.filtered,
        first_entry(ac),
        0,
        0,
        0,
        rect.w as int,
        rect.h - 1,
        rect.x as int,
    )
}

/// Draws the completion list in its part of the screen.
pub fn auto_complete_sketch(ac: &AutoComplete, rect: &Rect, target: &mut ScreenBuffer)
    requires
        old(target)@.wf(),
        completions_fit(ac@, *rect),
    ensures
        final(target)@ == old(target)@.with_completions(ac@, *rect),
        final(target)@.wf(),
        final(target)@.width == old(target)@.width,
        final(target)@.height == old(target)@.height,
{
    let ghost f = ac@.filtered;
    proof {
        sketch::lemma_with_lines_wf(
            target@,
            rect.x as int,
            rect.y as int,
            Seq::new(rect.h as nat, |i: int| sketch::repeated(' ', rect.w as int)),
        );
    }
    let ghost shape = target@;
    sketch::blank(target, rect);
    let rule: String = sketch::repeat_char('─', rect.w as usize);
    target.set_string_xy(
        rect.x,
        rect.y,
        rule.as_str(),
        screen::text_color(),
        screen::back_color(),
    );
    let ghost base = target@;
    let y: u16 = rect.y + 1;
    let height: u16 = rect.h - 1;
    let ghost all = entries_from(f, first_entry(ac@), 0, 0, 0, rect.w as int, height as int);
    let ghost mut done: Seq<Entry> = Seq::empty();
    let mut c: usize = match ac.selected {
        Some(s) => s,
        None => 0,
    };
    let mut row: u16 = 0;
    let mut offset: u16 = 0;
    let mut max: usize = 0;
    assert(done + all =~= all);
    while c < ac.filtered.len()
        invariant
            f == ac@.filtered,
            height == rect.h - 1,
            y == rect.y + 1,
            shape == old(target)@,
            base == shape.blanked(*rect).with_string(
                rect.x as int,
                rect.y as int,
                sketch::repeated('─', rect.w as int),
                screen::text_fg(),
                screen::text_bg(),
            ),
            all == entries_from(f, first_entry(ac@), 0, 0, 0, rect.w as int, rect.h - 1),
            sketch::rows_fit(*rect),
            row <= height,
            max <= u16::MAX,
            target@.wf(),
            target@.width == shape.width,
            target@.height == shape.height,
            target@ == base.with_entries(rect.x as int, y as int, ac@, done),
            done + entries_from(
                f,
                c as int,
                row as int,
                offset as int,
                max as int,
                rect.w as int,
                height as int,
            ) == all,
            entries_fit(
                f,
                c as int,
                row as int,
                offset as int,
                max as int,
                rect.w as int,
                height as int,
                rect.x as int,
            ),
        decreases
                ac.filtered@.len() - c,
                if row >= height {
                    1nat
                } else {
                    0nat
                },
    {
        assert(f[c as int] == ac.filtered@[c as int]@);
        if row >= height {
            offset = offset + max as u16 + 1;
            row = 0;
            max = 0;
            continue;
        }
        let count: usize = ac.filtered[c].as_str().unicode_len();
        if offset > rect.w || count > (rect.w - offset) as usize {
            assert(done + Seq::<Entry>::empty() =~= done);
            return ;
        }
        let is_selected: bool = match ac.selected {
            Some(s) => s == c,
            None => false,
        };
        let bg: Color = if is_selected {
            screen::selection_color()
        } else {
            screen::back_color()
        };
        target.set_string_xy(
            rect.x + offset,
            y + row,
            ac.filtered[c].as_str(),
            screen::text_color(),
            bg,
        );
        proof {
            let e = Entry { offset: offset as int, row: row as int, number: c as int };
            let rest = entries_from(
                f,
                c + 1,
                row + 1,
                offset as int,
                widest(max as int, f[c as int].len() as int),
                rect.w as int,
                height as int,
            );
            assert(done + (seq![e] + rest) =~= done.push(e) + rest);
            assert(done.push(e).drop_last() =~= done);
            done = done.push(e);
        }
        if count > max {
            max = count;
        }
        c = c + 1;
        row = row + 1;
    }
    assert(done + Seq::<Entry>::empty() =~= done);
}

// ---- whether it fits

/// Whether the command line can be drawn.
pub fn line_is_in(cmd_line: &CmdLine, rect: &Rect) -> (res: bool)
    ensures
        res == cmd_line_fits(cmd_line@, *rect),
{
    if cmd_line.input.as_str().is_empty() {
        return true;
    }
    match cmd_line.selection {
        Some(sel) => {
            if !cmd_line.may_yank() {
                return false;
            }
            let before: usize = strings::char_index(&cmd_line.input, sel.0);
            #[verifier::truncate] (before as u16) <= u16::MAX - rect.x
        },
        None => true,
    }
}

/// Whether the completion list can be drawn.
pub fn list_is_in(ac: &AutoComplete, rect: &Rect) -> (res: bool)
    ensures
        res == completions_fit(ac@, *rect),
{
    if rect.y as u32 + rect.h as u32 > u16::MAX as u32 + 1 || rect.h < 1 || rect.y == u16::MAX {
        return false;
    }
    let ghost f = ac@.filtered;
    let height: u16 = rect.h - 1;
    let mut c: usize = match ac.selected {
        Some(s) => s,
        None => 0,
    };
    let mut row: u16 = 0;
    let mut offset: u16 = 0;
    let mut max: usize = 0;
    let ghost goal = completions_fit(ac@, *rect);
    while c < ac.filtered.len()
        invariant
            f == ac@.filtered,
            height == rect.h - 1,
            goal == completions_fit(ac@, *rect),
            row <= height,
            max <= u16::MAX,
            goal == entries_fit(
                f,
                c as int,
                row as int,
                offset as int,
                max as int,
                rect.w as int,
                height as int,
                rect.x as int,
            ),
        decreases
                ac.filtered@.len() - c,
                if row >= height {
                    1nat
                } else {
                    0nat
                },
    {
        assert(f[c as int] == ac.filtered@[c as int]@);
        if height == 0 {
            return false;
        }
        if row >= height {
            if offset as usize + max + 1 > u16::MAX as usize {
                return false;
            }
            offset = offset + max as u16 + 1;
            row = 0;
            max = 0;
            continue;
        }
        let count: usize = ac.filtered[c].as_str().unicode_len();
        if offset > rect.w || count > (rect.w - offset) as usize {
            return true;
        }
        if offset > u16::MAX - rect.x {
            return false;
        }
        if count > max {
            max = count;
        }
        c = c + 1;
        row = row + 1;
    }
    row == 0 || offset as usize + max + 1 <= u16::MAX as usize
}

} // verus!
