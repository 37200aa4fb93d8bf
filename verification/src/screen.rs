//! The screen as a grid of cells, and what brings a terminal from one picture
//! to the next.
use vstd::prelude::*;
use crate::motion;
use crate::strings;

verus! {

#[derive(Clone, Copy, PartialEq, Eq, Structural)]
pub enum Color {
    White,
    Rgb { r: u8, g: u8, b: u8 },
}

/// The colour of text.
pub open spec fn text_fg() -> Color {
    Color::White
}

/// The colour behind text.
pub open spec fn text_bg() -> Color {
    Color::Rgb { r: 0, g: 0, b: 0 }
}

/// The colour behind what is selected.
pub open spec fn selection_bg() -> Color {
    Color::Rgb { r: 20, g: 140, b: 240 }
}

pub fn text_color() -> (c: Color)
    ensures
        c == text_fg(),
{
    Color::White
}

pub fn back_color() -> (c: Color)
    ensures
        c == text_bg(),
{
    Color::Rgb { r: 0, g: 0, b: 0 }
}

pub fn selection_color() -> (c: Color)
    ensures
        c == selection_bg(),
{
    Color::Rgb { r: 20, g: 140, b: 240 }
}

#[derive(Clone, Copy, PartialEq, Eq, Structural)]
pub struct Cell {
    pub c: char,
    pub fg: Color,
    pub bg: Color,
}

pub open spec fn plain(c: char) -> Cell {
    Cell { c, fg: text_fg(), bg: text_bg() }
}

pub struct ScreenBuffer {
    pub cells: Vec<Cell>,
    pub width: u16,
    pub height: u16,
}

#[verifier::ext_equal]
pub struct ScreenView {
    pub cells: Seq<Cell>,
    pub width: u16,
    pub height: u16,
}

impl View for ScreenBuffer {
    type V = ScreenView;

    open spec fn view(&self) -> ScreenView {
        ScreenView { cells: self.cells@, width: self.width, height: self.height }
    }
}

impl ScreenView {
    /// A row of cells for each row of the screen, all of them countable in
    /// `u16`.
    pub open spec fn wf(self) -> bool {
        &&& self.cells.len() == self.width * self.height
        &&& self.width * self.height <= u16::MAX
    }

    pub open spec fn filled(width: u16, height: u16, c: char) -> ScreenView {
        ScreenView {
            cells: Seq::new((width * height) as nat, |i: int| plain(c)),
            width,
            height,
        }
    }

    /// The place of a cell in the list of cells.
    pub open spec fn index(self, x: int, y: int) -> int {
        y * self.width + x
    }

    pub open spec fn cell(self, x: int, y: int) -> Cell {
        self.cells[self.index(x, y)]
    }

    /// There is a cell with that index.
    pub open spec fn has_cell(self, x: int, y: int) -> bool {
        self.index(x, y) <= u16::MAX && self.index(x, y) < self.cells.len()
    }

    pub open spec fn with_cell(self, x: int, y: int, cell: Cell) -> ScreenView {
        ScreenView { cells: self.cells.update(self.index(x, y), cell), ..self }
    }

    /// What is in cell `i` after a text was written from a place on, up to the
    /// end of the row.
    pub open spec fn cell_after(
        self,
        i: int,
        x: int,
        y: int,
        s: Seq<char>,
        fg: Color,
        bg: Color,
    ) -> Cell {
        let start = self.index(x, y);
        let end = self.index(motion::least(x + s.len(), self.width as int), y);
        if start <= i < end {
            Cell { c: s[i - start], fg, bg }
        } else {
            self.cells[i]
        }
    }

    /// A text written from a place on.
    pub open spec fn with_string(
        self,
        x: int,
        y: int,
        s: Seq<char>,
        fg: Color,
        bg: Color,
    ) -> ScreenView {
        if y < self.height {
            ScreenView {
                cells: Seq::new(
                    self.cells.len(),
                    |i: int| self.cell_after(i, x, y, s, fg, bg),
                ),
                ..self
            }
        } else {
            self
        }
    }

    pub open spec fn cleared(self) -> ScreenView {
        ScreenView { cells: Seq::new(self.cells.len(), |i: int| plain(' ')), ..self }
    }
}

proof fn lemma_cell_in(x: int, y: int, width: int, height: int)
    requires
        0 <= x < width,
        0 <= y < height,
    ensures
        0 <= y * width + x < width * height,
        0 <= y * width,
        y * width + width <= width * height,
{
    assert(y * width + width <= height * width) by (nonlinear_arith)
        requires
            y + 1 <= height,
            0 <= width,
    ;
    assert(0 <= y * width) by (nonlinear_arith)
        requires
            0 <= y,
            0 <= width,
    ;
    assert(height * width == width * height) by (nonlinear_arith);
}

proof fn lemma_with_cell(s: ScreenView, x: int, y: int, cell: Cell, t: ScreenView)
    requires
        t == s.with_cell(x, y, cell),
        0 <= s.index(x, y) < s.cells.len(),
    ensures
        t.cells.len() == s.cells.len(),
        forall|k: int|
            0 <= k < s.cells.len() ==> #[trigger] t.cells[k] == (if k == s.index(x, y) {
                cell
            } else {
                s.cells[k]
            }),
{
}

proof fn lemma_with_string(
    s: ScreenView,
    x: int,
    y: int,
    text: Seq<char>,
    fg: Color,
    bg: Color,
    t: ScreenView,
    n: int,
)
    requires
        0 <= y < s.height,
        n == motion::least(text.len() as int, s.width - x),
        t.width == s.width,
        t.height == s.height,
        t.cells.len() == s.cells.len(),
        forall|k: int|
            0 <= k < s.cells.len() ==> #[trigger] t.cells[k] == (if s.index(x, y) <= k < s.index(
                x,
                y,
            ) + n {
                Cell { c: text[k - s.index(x, y)], fg, bg }
            } else {
                s.cells[k]
            }),
    ensures
        t == s.with_string(x, y, text, fg, bg),
{
    let u = s.with_string(x, y, text, fg, bg);
    let start = s.index(x, y);
    let end = s.index(motion::least(x + text.len(), s.width as int), y);
    assert(end == start + n);
    assert(u.cells.len() == s.cells.len());
    assert forall|k: int| 0 <= k < s.cells.len() implies #[trigger] t.cells[k] == u.cells[k] by {
        assert(u.cells[k] == (if start <= k < end {
            Cell { c: text[k - start], fg, bg }
        } else {
            s.cells[k]
        }));
    }
    assert(t.cells =~= u.cells);
}

impl ScreenBuffer {
    /// A screen full of one character.
    pub fn filled(width: u16, height: u16, c: char) -> (res: Self)
        requires
            width * height <= u16::MAX,
        ensures
            res@ == ScreenView::filled(width, height, c),
            res@.wf(),
    {
        assert(0 <= width * height) by (nonlinear_arith);
        let count: u16 = width * height;
        let cell: Cell = Cell { c, fg: text_color(), bg: back_color() };
        let mut cells: Vec<Cell> = Vec::new();
        let mut i: u16 = 0;
        while i < count
            invariant
                i <= count,
                cells@.len() == i,
                forall|k: int| 0 <= k < i ==> #[trigger] cells@[k] == plain(c),
                cell == plain(c),
            decreases count - i,
        {
            cells.push(cell);
            i = i + 1;
        }
        let res: ScreenBuffer = ScreenBuffer { cells, width, height };
        assert(res@ =~= ScreenView::filled(width, height, c));
        res
    }

    pub fn set_cell_xy(&mut self, x: u16, y: u16, cell: Cell)
        requires
            old(self)@.has_cell(x as int, y as int),
        ensures
            final(self)@ == old(self)@.with_cell(x as int, y as int, cell),
    {
        assert(0 <= y * self.width) by (nonlinear_arith);
        let idx: u16 = y * self.width + x;
        self.cells[idx as usize] = cell;
    }

    pub fn set_string_xy(&mut self, x: u16, y: u16, s: &str, fg: Color, bg: Color)
        requires
            old(self)@.wf(),
        ensures
            final(self)@ == old(self)@.with_string(x as int, y as int, s@, fg, bg),
            final(self)@.wf(),
    {
        let ghost before = self@;
        let chars: Vec<char> = strings::chars_of(s);
        let ghost start = before.index(x as int, y as int);
        let mut i: usize = 0;
        if y < self.height && x < self.width {
            proof {
                lemma_cell_in(x as int, y as int, self.width as int, self.height as int);
            }
            let room: usize = (self.width - x) as usize;
            while i < chars.len() && i < room
                invariant
                    i <= chars@.len(),
                    i <= room,
                    chars@ == s@,
                    before.wf(),
                    y < before.height,
                    x < before.width,
                    room == before.width - x,
                    start == before.index(x as int, y as int),
                    self@.width == before.width,
                    self@.height == before.height,
                    self@.cells.len() == before.cells.len(),
                    forall|k: int|
                        0 <= k < before.cells.len() ==> #[trigger] self@.cells[k] == (if start <= k
                            < start + i {
                            Cell { c: s@[k - start], fg, bg }
                        } else {
                            before.cells[k]
                        }),
                decreases chars@.len() - i,
            {
                let xx: u16 = x + i as u16;
                proof {
                    lemma_cell_in(xx as int, y as int, before.width as int, before.height as int);
                }
                let ghost now = self@;
                let ghost at = now.index(xx as int, y as int);
                assert(at == start + i && 0 <= at < now.cells.len());
                self.set_cell_xy(xx, y, Cell { c: chars[i], fg, bg });
                proof {
                    lemma_with_cell(
                        now,
                        xx as int,
                        y as int,
                        Cell { c: s@[i as int], fg, bg },
                        self@,
                    );
                }
                i = i + 1;
            }
            proof {
                lemma_with_string(before, x as int, y as int, s@, fg, bg, self@, i as int);
            }
        } else {
            assert(self@ =~= before.with_string(x as int, y as int, s@, fg, bg));
        }
    }

    fn clear_buffer(&mut self)
        ensures
            final(self)@ == old(self)@.cleared(),
    {
        let ghost before = self@;
        let cell: Cell = Cell { c: ' ', fg: text_color(), bg: back_color() };
        let n: usize = self.cells.len();
        let mut i: usize = 0;
        while i < n
            invariant
                i <= n,
                n == self.cells@.len(),
                n == before.cells.len(),
                self@.width == before.width,
                self@.height == before.height,
                cell == plain(' '),
                forall|k: int| 0 <= k < i ==> #[trigger] self.cells@[k] == plain(' '),
            decreases n - i,
        {
            self.cells[i] = cell;
            i = i + 1;
        }
        assert(self@ =~= before.cleared());
    }
}

// ---- drawing

/// A step of drawing on a terminal.
pub enum DrawOp {
    MoveTo(u16, u16),
    SetForeground(Color),
    SetBackground(Color),
    Print(String),
    ResetColor,
}

#[verifier::ext_equal]
pub enum DrawOpView {
    MoveTo(u16, u16),
    SetForeground(Color),
    SetBackground(Color),
    Print(Seq<char>),
    ResetColor,
}

impl View for DrawOp {
    type V = DrawOpView;

    open spec fn view(&self) -> DrawOpView {
        match *self {
            DrawOp::MoveTo(x, y) => DrawOpView::MoveTo(x, y),
            DrawOp::SetForeground(c) => DrawOpView::SetForeground(c),
            DrawOp::SetBackground(c) => DrawOpView::SetBackground(c),
            DrawOp::Print(s) => DrawOpView::Print(s@),
            DrawOp::ResetColor => DrawOpView::ResetColor,
        }
    }
}

pub open spec fn op_views(s: Seq<DrawOp>) -> Seq<DrawOpView> {
    s.map_values(|o: DrawOp| o@)
}

/// The end of the run of cells from column `x` on that have changed and are
/// in the given colours.
pub open spec fn run_end(
    new: ScreenView,
    old: ScreenView,
    y: int,
    x: int,
    fg: Color,
    bg: Color,
) -> int
    decreases new.width - x,
{
    if x < new.width && new.cell(x, y) != old.cell(x, y) && new.cell(x, y).fg == fg && new.cell(
        x,
        y,
    ).bg == bg {
        run_end(new, old, y, x + 1, fg, bg)
    } else {
        x
    }
}

/// The characters of a row from column `x` up to `end`.
pub open spec fn row_text(s: ScreenView, y: int, x: int, end: int) -> Seq<char> {
    Seq::new((end - x) as nat, |i: int| s.cell(x + i, y).c)
}

/// The steps that draw one run, in a terminal set to the given colours.
pub open spec fn run_ops(
    new: ScreenView,
    old: ScreenView,
    y: int,
    x: int,
    fg: Option<Color>,
    bg: Option<Color>,
) -> Seq<DrawOpView> {
    let c = new.cell(x, y);
    let end = run_end(new, old, y, x, c.fg, c.bg);
    let moved = seq![DrawOpView::MoveTo(x as u16, y as u16)];
    let fg_set = if fg == Some(c.fg) {
        moved
    } else {
        moved.push(DrawOpView::SetForeground(c.fg))
    };
    let bg_set = if bg == Some(c.bg) {
        fg_set
    } else {
        fg_set.push(DrawOpView::SetBackground(c.bg))
    };
    bg_set.push(DrawOpView::Print(row_text(new, y, x, end)))
}

/// The steps that draw what has changed, from a place on, in a terminal set
/// to the given colours. At the end the colours are reset.
pub open spec fn draw_from(
    new: ScreenView,
    old: ScreenView,
    y: int,
    x: int,
    fg: Option<Color>,
    bg: Option<Color>,
) -> Seq<DrawOpView>
    decreases new.height - y, new.width - x,
    via draw_from_decreases
{
    if y >= new.height {
        seq![DrawOpView::ResetColor]
    } else if x >= new.width {
        draw_from(new, old, y + 1, 0, fg, bg)
    } else if new.cell(x, y) == old.cell(x, y) {
        draw_from(new, old, y, x + 1, fg, bg)
    } else {
        let c = new.cell(x, y);
        run_ops(new, old, y, x, fg, bg) + draw_from(
            new,
            old,
            y,
            run_end(new, old, y, x, c.fg, c.bg),
            Some(c.fg),
            Some(c.bg),
        )
    }
}

#[via_fn]
proof fn draw_from_decreases(
    new: ScreenView,
    old: ScreenView,
    y: int,
    x: int,
    fg: Option<Color>,
    bg: Option<Color>,
) {
    if y < new.height && x < new.width && new.cell(x, y) != old.cell(x, y) {
        lemma_run_end(new, old, y, x + 1, new.cell(x, y).fg, new.cell(x, y).bg);
    }
}

/// A run does not go past its row, and all of it has changed.
proof fn lemma_run_end(new: ScreenView, old: ScreenView, y: int, x: int, fg: Color, bg: Color)
    ensures
        x <= run_end(new, old, y, x, fg, bg),
        x <= new.width ==> run_end(new, old, y, x, fg, bg) <= new.width,
        forall|k: int|
            x <= k < run_end(new, old, y, x, fg, bg) ==> {
                &&& new.cell(k, y) != old.cell(k, y)
                &&& (#[trigger] new.cell(k, y)).fg == fg
                &&& new.cell(k, y).bg == bg
            },
    decreases new.width - x,
{
    if x < new.width && new.cell(x, y) != old.cell(x, y) && new.cell(x, y).fg == fg && new.cell(
        x,
        y,
    ).bg == bg {
        lemma_run_end(new, old, y, x + 1, fg, bg);
    }
}

/// The steps that bring a terminal from one picture to another.
pub open spec fn draw(new: ScreenView, old: ScreenView) -> Seq<DrawOpView> {
    draw_from(new, old, 0, 0, None, None)
}

impl ScreenBuffer {
    /// Draws what differs from the picture before. Then that one is cleared
    /// for the next picture, and this one takes its place.
    pub fn print(&mut self, prev: &mut ScreenBuffer) -> (ops: Vec<DrawOp>)
        requires
            old(self)@.wf(),
            old(prev)@.cells.len() >= old(self)@.cells.len(),
            old(prev)@.width == old(self)@.width,
        ensures
            op_views(ops@) == draw(old(self)@, old(prev)@),
            final(prev)@ == old(self)@,
            final(self)@ == old(prev)@.cleared(),
    {
        let ghost new_v = self@;
        let ghost old_v = prev@;
        let mut out: Vec<DrawOp> = Vec::new();
        let mut current_fg: Option<Color> = None;
        let mut current_bg: Option<Color> = None;
        let mut y: u16 = 0;
        assert(op_views(out@) + draw(new_v, old_v) =~= draw(new_v, old_v));
        while y < self.height
            invariant
                self@ == new_v,
                prev@ == old_v,
                new_v.wf(),
                old_v.cells.len() >= new_v.cells.len(),
                old_v.width == new_v.width,
                y <= new_v.height,
                op_views(out@) + draw_from(new_v, old_v, y as int, 0, current_fg, current_bg)
                    == draw(new_v, old_v),
            decreases new_v.height - y,
        {
            let mut x: u16 = 0;
            while x < self.width
                invariant
                    self@ == new_v,
                    prev@ == old_v,
                    new_v.wf(),
                    old_v.cells.len() >= new_v.cells.len(),
                    old_v.width == new_v.width,
                    y < new_v.height,
                    x <= new_v.width,
                    op_views(out@) + draw_from(
                        new_v,
                        old_v,
                        y as int,
                        x as int,
                        current_fg,
                        current_bg,
                    ) == draw(new_v, old_v),
                decreases new_v.width - x,
            {
                proof {
                    lemma_cell_in(x as int, y as int, new_v.width as int, new_v.height as int);
                }
                let idx: usize = (y * self.width + x) as usize;
                let old_cell: Cell = prev.cells[idx];
                let new_cell: Cell = self.cells[idx];
                if new_cell == old_cell {
                    x = x + 1;
                    continue;
                }
                let ghost before = out@;
                let start_x: u16 = x;
                let style_fg: Color = new_cell.fg;
                let style_bg: Color = new_cell.bg;
                let mut line: String = String::new();
                proof {
                    lemma_run_end(new_v, old_v, y as int, x as int, style_fg, style_bg);
                }
                let ghost end = run_end(
                    new_v,
                    old_v,
                    y as int,
                    start_x as int,
                    style_fg,
                    style_bg,
                );
                assert(line@ =~= row_text(new_v, y as int, start_x as int, start_x as int));
                while x < self.width
                    invariant_except_break
                        self@ == new_v,
                        prev@ == old_v,
                        new_v.wf(),
                        old_v.cells.len() >= new_v.cells.len(),
                        old_v.width == new_v.width,
                        y < new_v.height,
                        start_x <= x <= new_v.width,
                        run_end(new_v, old_v, y as int, x as int, style_fg, style_bg) == end,
                        line@ == row_text(new_v, y as int, start_x as int, x as int),
                    ensures
                        self@ == new_v,
                        prev@ == old_v,
                        x == end,
                        line@ == row_text(new_v, y as int, start_x as int, x as int),
                    decreases new_v.width - x,
                {
                    proof {
                        lemma_cell_in(
                            x as int,
                            y as int,
                            new_v.width as int,
                            new_v.height as int,
                        );
                    }
                    let idx: usize = (y * self.width + x) as usize;
                    let old_cell: Cell = prev.cells[idx];
                    let new_cell: Cell = self.cells[idx];
                    if new_cell == old_cell {
                        break;
                    }
                    if new_cell.fg != style_fg || new_cell.bg != style_bg {
                        break;
                    }
                    line.push(new_cell.c);
                    x = x + 1;
                    assert(line@ =~= row_text(new_v, y as int, start_x as int, x as int));
                }
                let ghost text = line@;
                out.push(DrawOp::MoveTo(start_x, y));
                assert(op_views(out@) =~= op_views(before) + seq![DrawOpView::MoveTo(start_x, y)]);
                let ghost ops1 = op_views(out@);
                let same_fg: bool = is_color(current_fg, style_fg);
                if !same_fg {
                    out.push(DrawOp::SetForeground(style_fg));
                    assert(op_views(out@) =~= ops1.push(DrawOpView::SetForeground(style_fg)));
                }
                let ghost ops2 = op_views(out@);
                let same_bg: bool = is_color(current_bg, style_bg);
                if !same_bg {
                    out.push(DrawOp::SetBackground(style_bg));
                    assert(op_views(out@) =~= ops2.push(DrawOpView::SetBackground(style_bg)));
                }
                let ghost ops3 = op_views(out@);
                out.push(DrawOp::Print(line));
                assert(op_views(out@) =~= ops3.push(DrawOpView::Print(text)));
                proof {
                    let run = run_ops(
                        new_v,
                        old_v,
                        y as int,
                        start_x as int,
                        current_fg,
                        current_bg,
                    );
                    assert(op_views(out@) =~= op_views(before) + run);
                    let rest = draw_from(
                        new_v,
                        old_v,
                        y as int,
                        x as int,
                        Some(style_fg),
                        Some(style_bg),
                    );
                    assert(op_views(before) + (run + rest) =~= (op_views(before) + run) + rest);
                }
                current_fg = Some(style_fg);
                current_bg = Some(style_bg);
            }
            y = y + 1;
        }
        let ghost before = out@;
        out.push(DrawOp::ResetColor);
        assert(op_views(out@) =~= op_views(before) + seq![DrawOpView::ResetColor]);
        std::mem::swap(self, prev);
        self.clear_buffer();
        out
    }
}

fn is_color(current: Option<Color>, c: Color) -> (res: bool)
    ensures
        res == (current == Some(c)),
{
    match current {
        Some(d) => d == c,
        None => false,
    }
}

// ---- what drawing promises

/// What a terminal shows, where it writes next, and in which colours.
#[verifier::ext_equal]
pub struct Terminal {
    pub cells: Seq<Cell>,
    pub width: u16,
    pub at: int,
    pub fg: Option<Color>,
    pub bg: Option<Color>,
}

impl Terminal {
    pub open spec fn apply(self, op: DrawOpView) -> Terminal {
        match op {
            DrawOpView::MoveTo(x, y) => Terminal { at: y * self.width + x, ..self },
            DrawOpView::SetForeground(c) => Terminal { fg: Some(c), ..self },
            DrawOpView::SetBackground(c) => Terminal { bg: Some(c), ..self },
            DrawOpView::Print(s) => Terminal {
                cells: Seq::new(
                    self.cells.len(),
                    |i: int|
                        if self.at <= i < self.at + s.len() {
                            Cell { c: s[i - self.at], fg: self.fg->0, bg: self.bg->0 }
                        } else {
                            self.cells[i]
                        },
                ),
                at: self.at + s.len(),
                ..self
            },
            DrawOpView::ResetColor => Terminal { fg: None, bg: None, ..self },
        }
    }

    pub open spec fn run(self, ops: Seq<DrawOpView>) -> Terminal
        decreases ops.len(),
    {
        if ops.len() == 0 {
            self
        } else {
            self.run(ops.drop_last()).apply(ops.last())
        }
    }
}

proof fn lemma_run_concat(t: Terminal, a: Seq<DrawOpView>, b: Seq<DrawOpView>)
    ensures
        t.run(a + b) == t.run(a).run(b),
    decreases b.len(),
{
    if b.len() == 0 {
        assert(a + b =~= a);
    } else {
        lemma_run_concat(t, a, b.drop_last());
        assert((a + b).drop_last() =~= a + b.drop_last());
        assert((a + b).last() == b.last());
    }
}

/// The terminal shows the new picture up to a cell and the old one from there.
spec fn half_drawn(t: Terminal, new: ScreenView, old: ScreenView, upto: int) -> bool {
    &&& t.width == new.width
    &&& t.cells.len() == new.cells.len()
    &&& forall|i: int|
        0 <= i < new.cells.len() ==> #[trigger] t.cells[i] == (if i < upto {
            new.cells[i]
        } else {
            old.cells[i]
        })
}

proof fn lemma_run_drawn(
    t: Terminal,
    new: ScreenView,
    old: ScreenView,
    y: int,
    x: int,
    fg: Option<Color>,
    bg: Option<Color>,
)
    requires
        new.wf(),
        old.cells.len() == new.cells.len(),
        old.width == new.width,
        0 <= y < new.height,
        0 <= x < new.width,
        new.cell(x, y) != old.cell(x, y),
        half_drawn(t, new, old, y * new.width + x),
        t.fg == fg,
        t.bg == bg,
    ensures
        ({
            let c = new.cell(x, y);
            let end = run_end(new, old, y, x, c.fg, c.bg);
            let u = t.run(run_ops(new, old, y, x, fg, bg));
            &&& half_drawn(u, new, old, y * new.width + end)
            &&& u.fg == Some(c.fg)
            &&& u.bg == Some(c.bg)
        }),
{
    let c = new.cell(x, y);
    let end = run_end(new, old, y, x, c.fg, c.bg);
    lemma_run_end(new, old, y, x, c.fg, c.bg);
    lemma_cell_in(x, y, new.width as int, new.height as int);
    let moved = seq![DrawOpView::MoveTo(x as u16, y as u16)];
    let t1 = t.run(moved);
    assert(moved.drop_last() =~= Seq::<DrawOpView>::empty());
    assert(t.run(moved.drop_last()) == t);
    assert(t1 == t.apply(moved.last()));
    assert(t1.at == y * new.width + x);
    let fg_set = if fg == Some(c.fg) {
        moved
    } else {
        moved.push(DrawOpView::SetForeground(c.fg))
    };
    assert(moved.push(DrawOpView::SetForeground(c.fg)).drop_last() =~= moved);
    let t2 = t.run(fg_set);
    assert(t2.fg == Some(c.fg) && t2.bg == bg && t2.at == t1.at && t2.cells == t.cells
        && t2.width == t.width);
    let bg_set = if bg == Some(c.bg) {
        fg_set
    } else {
        fg_set.push(DrawOpView::SetBackground(c.bg))
    };
    assert(fg_set.push(DrawOpView::SetBackground(c.bg)).drop_last() =~= fg_set);
    let t3 = t.run(bg_set);
    assert(t3.fg == Some(c.fg) && t3.bg == Some(c.bg) && t3.at == t1.at && t3.cells == t.cells
        && t3.width == t.width);
    let text = row_text(new, y, x, end);
    let all = bg_set.push(DrawOpView::Print(text));
    assert(all.drop_last() =~= bg_set);
    let u = t.run(all);
    assert(u == t3.apply(DrawOpView::Print(text)));
    assert forall|i: int| 0 <= i < new.cells.len() implies #[trigger] u.cells[i] == (if i < y
        * new.width + end {
        new.cells[i]
    } else {
        old.cells[i]
    }) by {
        let at = y * new.width + x;
        assert(t.cells[i] == t.cells[i]);
        if at <= i < at + text.len() {
            let k = x + (i - at);
            assert(new.cell(k, y).fg == c.fg);
            assert(text[i - at] == new.cell(x + (i - at), y).c);
        }
    }
}

proof fn lemma_drawn(
    t: Terminal,
    new: ScreenView,
    old: ScreenView,
    y: int,
    x: int,
    fg: Option<Color>,
    bg: Option<Color>,
)
    requires
        new.wf(),
        old.cells.len() == new.cells.len(),
        old.width == new.width,
        0 <= y <= new.height,
        0 <= x <= new.width,
        y == new.height ==> x == 0,
        half_drawn(t, new, old, y * new.width + x),
        t.fg == fg,
        t.bg == bg,
    ensures
        t.run(draw_from(new, old, y, x, fg, bg)).cells == new.cells,
    decreases new.height - y, new.width - x,
{
    if y >= new.height {
        let ops = seq![DrawOpView::ResetColor];
        assert(ops.drop_last() =~= Seq::<DrawOpView>::empty());
        assert(t.run(ops.drop_last()) == t);
        assert(y * new.width == new.width * new.height) by (nonlinear_arith)
            requires
                y == new.height,
        ;
        assert(t.run(ops).cells =~= new.cells);
    } else if x >= new.width {
        assert(y * new.width + new.width == (y + 1) * new.width) by (nonlinear_arith);
        lemma_drawn(t, new, old, y + 1, 0, fg, bg);
    } else if new.cell(x, y) == old.cell(x, y) {
        lemma_cell_in(x, y, new.width as int, new.height as int);
        lemma_drawn(t, new, old, y, x + 1, fg, bg);
    } else {
        let c = new.cell(x, y);
        let end = run_end(new, old, y, x, c.fg, c.bg);
        lemma_run_end(new, old, y, x + 1, c.fg, c.bg);
        let run = run_ops(new, old, y, x, fg, bg);
        let rest = draw_from(new, old, y, end, Some(c.fg), Some(c.bg));
        lemma_run_drawn(t, new, old, y, x, fg, bg);
        lemma_run_concat(t, run, rest);
        lemma_drawn(t.run(run), new, old, y, end, Some(c.fg), Some(c.bg));
    }
}

/// A terminal that shows the old picture shows the new one after drawing,
/// whatever its colours were set to before.
pub proof fn law_draw(t: Terminal, new: ScreenView, old: ScreenView)
    requires
        new.wf(),
        old.wf(),
        old.width == new.width,
        old.height == new.height,
        t.cells == old.cells,
        t.width == new.width,
        t.fg is None,
        t.bg is None,
    ensures
        t.run(draw(new, old)).cells == new.cells,
{
    assert(0 * new.width == 0) by (nonlinear_arith);
    lemma_drawn(t, new, old, 0, 0, None, None);
}

impl ScreenBuffer {
    /// Whether there is a cell at a place.
    pub fn has_cell_at(&self, x: u64, y: u64) -> (res: bool)
        requires
            x <= u32::MAX,
            y <= u32::MAX,
        ensures
            res == self@.has_cell(x as int, y as int),
    {
        assert(0 <= y * self.width <= u32::MAX * u16::MAX) by (nonlinear_arith)
            requires
                y <= u32::MAX,
                self.width <= u16::MAX,
        ;
        let at: u64 = y * self.width as u64 + x;
        at <= u16::MAX as u64 && (at as usize) < self.cells.len()
    }
}

} // verus!
