//! What each component draws in its part of the screen.
use vstd::prelude::*;
use vstd::string::*;
use crate::buffers::{Buffer, BufferView, IS_SCRATCH};
use crate::divide;
use crate::layout::Rect;
use crate::motion;
use crate::screen;
use crate::screen::{Cell, ScreenBuffer, ScreenView};
use crate::strings;
use crate::terminal::CursorStyle;
use crate::text;
use crate::views::{Mode, TextView};

verus! {

// ---- pieces

pub open spec fn repeated(c: char, n: int) -> Seq<char> {
    Seq::new(n as nat, |i: int| c)
}

pub fn repeat_char(c: char, n: usize) -> (s: String)
    ensures
        s@ == repeated(c, n as int),
{
    let mut s: String = String::new();
    let mut i: usize = 0;
    assert(s@ =~= repeated(c, 0));
    while i < n
        invariant
            i <= n,
            s@ == repeated(c, i as int),
        decreases n - i,
    {
        s.push(c);
        i = i + 1;
        assert(s@ =~= repeated(c, i as int));
    }
    s
}

impl ScreenView {
    /// Texts written one below the other.
    pub open spec fn with_lines(self, x: int, y: int, lines: Seq<Seq<char>>) -> ScreenView
        decreases lines.len(),
    {
        if lines.len() == 0 {
            self
        } else {
            self.with_lines(x, y, lines.drop_last()).with_string(
                x,
                y + lines.len() - 1,
                lines.last(),
                screen::text_fg(),
                screen::text_bg(),
            )
        }
    }

    /// A part of the screen filled with blanks.
    pub open spec fn blanked(self, rect: Rect) -> ScreenView {
        self.with_lines(
            rect.x as int,
            rect.y as int,
            Seq::new(rect.h as nat, |i: int| repeated(' ', rect.w as int)),
        )
    }
}

/// Writing keeps the shape of a screen.
pub proof fn lemma_with_lines_wf(s: ScreenView, x: int, y: int, lines: Seq<Seq<char>>)
    requires
        s.wf(),
    ensures
        s.with_lines(x, y, lines).wf(),
        s.with_lines(x, y, lines).width == s.width,
        s.with_lines(x, y, lines).height == s.height,
    decreases lines.len(),
{
    if lines.len() > 0 {
        lemma_with_lines_wf(s, x, y, lines.drop_last());
    }
}

/// All rows of a part of the screen can be counted in `u16`.
pub open spec fn rows_fit(rect: Rect) -> bool {
    rect.y + rect.h <= u16::MAX + 1
}

fn draw_lines(target: &mut ScreenBuffer, x: u16, y: u16, lines: &Vec<String>)
    requires
        old(target)@.wf(),
        y + lines@.len() <= u16::MAX + 1,
    ensures
        final(target)@ == old(target)@.with_lines(x as int, y as int, strings::texts(lines@)),
        final(target)@.wf(),
{
    let ghost all = strings::texts(lines@);
    let ghost start = target@;
    let mut i: usize = 0;
    assert(all.take(0) =~= Seq::<Seq<char>>::empty());
    while i < lines.len()
        invariant
            i <= lines@.len(),
            y + lines@.len() <= u16::MAX + 1,
            all == strings::texts(lines@),
            target@.wf(),
            target@ == start.with_lines(x as int, y as int, all.take(i as int)),
        decreases lines@.len() - i,
    {
        proof {
            assert(all.take(i + 1).drop_last() =~= all.take(i as int));
            assert(all.take(i + 1).last() == lines@[i as int]@);
        }
        target.set_string_xy(
            x,
            y + i as u16,
            lines[i].as_str(),
            screen::text_color(),
            screen::back_color(),
        );
        i = i + 1;
    }
    assert(all.take(i as int) =~= all);
}

/// Fills a part of the screen with blanks.
pub fn blank(target: &mut ScreenBuffer, rect: &Rect)
    requires
        old(target)@.wf(),
        rows_fit(*rect),
    ensures
        final(target)@ == old(target)@.blanked(*rect),
        final(target)@.wf(),
{
    let mut lines: Vec<String> = Vec::new();
    let mut i: u16 = 0;
    while i < rect.h
        invariant
            i <= rect.h,
            lines@.len() == i,
            forall|k: int| 0 <= k < i ==> (#[trigger] lines@[k])@ == repeated(' ', rect.w as int),
        decreases rect.h - i,
    {
        lines.push(repeat_char(' ', rect.w as usize));
        i = i + 1;
    }
    assert(strings::texts(lines@) =~= Seq::new(
        rect.h as nat,
        |i: int| repeated(' ', rect.w as int),
    ));
    draw_lines(target, rect.x, rect.y, &lines);
}

// ---- the margin of a view

pub open spec fn ceil_div(a: int, b: int) -> int {
    (a + b - 1) / b
}

/// How many rows of `w` characters a line takes: at least one.
pub open spec fn rows_of(t: Seq<char>, line: int, w: int) -> int {
    let n = ceil_div(text::line_len(t, line), w);
    if n <= 1 {
        1
    } else {
        n
    }
}

/// A line number, flush right in four columns, and a blank.
pub open spec fn number_label(n: nat) -> Seq<char> {
    repeated(' ', divide::monus(4, strings::decimal(n).len() as int)) + strings::decimal(n) + seq![' ']
}

/// What stands in front of the first rows of a line.
pub open spec fn line_labels(line: int, rows: int) -> Seq<Seq<char>> {
    Seq::new(
        rows as nat,
        |i: int|
            if i == 0 {
                number_label(line as nat)
            } else {
                repeated(' ', 5)
            },
    )
}

/// What stands in front of `room` rows, from a line on.
pub open spec fn labels_from(t: Seq<char>, line: int, w: int, room: int) -> Seq<Seq<char>>
    decreases text::line_count(t) - line,
{
    if room <= 0 || line >= text::line_count(t) {
        Seq::empty()
    } else {
        let rows = motion::least(rows_of(t, line, w), room);
        line_labels(line, rows) + labels_from(t, line + 1, w, room - rows)
    }
}

pub open spec fn mode_name(mode: Mode) -> Seq<char> {
    match mode {
        Mode::Normal => "NOR"@,
        Mode::Insert => "INS"@,
        Mode::Visual => "VIS"@,
    }
}

/// The name of a buffer: its file, or where one would be made.
pub open spec fn title(b: BufferView, cwd: Seq<char>) -> Seq<char> {
    if b.has_flag(IS_SCRATCH) {
        "[SCRATCH] "@ + cwd
    } else {
        match b.file {
            Some(p) => p,
            None => "[NEW_FILE] "@ + cwd,
        }
    }
}

pub open spec fn status_line(v: TextView, b: BufferView, cwd: Seq<char>) -> Seq<char> {
    mode_name(v.mode) + " "@ + strings::decimal(v.buf.idx as nat) + " "@ + title(b, cwd)
}

fn margin_label(n: usize) -> (s: String)
    ensures
        s@ == number_label(n as nat),
{
    let digits: String = strings::to_decimal(n);
    let len: usize = digits.as_str().unicode_len();
    let mut s: String = if len < 4 {
        repeat_char(' ', 4 - len)
    } else {
        String::new()
    };
    assert(s@ =~= repeated(' ', divide::monus(4, strings::decimal(n as nat).len() as int)));
    s.append(digits.as_str());
    s.push(' ');
    assert(s@ =~= number_label(n as nat));
    s
}

proof fn lemma_rows_of(t: Seq<char>, line: int, w: int)
    requires
        0 <= line,
        w > 0,
    ensures
        1 <= rows_of(t, line, w),
        rows_of(t, line, w) <= text::line_len(t, line) || text::line_len(t, line) == 0,
        text::line_len(t, line) == 0 ==> rows_of(t, line, w) == 1,
{
    text::lemma_line_starts_ordered(t, line, line + 1);
    let n = text::line_len(t, line);
    if n > 0 {
        assert((n + w - 1) / w <= n) by (nonlinear_arith)
            requires
                n > 0,
                w > 0,
        ;
    } else {
        assert((w - 1) / w == 0) by (nonlinear_arith)
            requires
                w > 0,
        ;
    }
}

/// The number of rows of a line.
fn count_rows(buffer: &Buffer, line: usize, w: usize) -> (rows: usize)
    requires
        line < text::line_count(buffer@.text),
        w > 0,
    ensures
        rows == rows_of(buffer@.text, line as int, w as int),
        rows >= 1,
{
    let len: usize = text::rope_line_len(&buffer.buf, line);
    proof {
        lemma_rows_of(buffer@.text, line as int, w as int);
        lemma_ceil(len as int, w as int);
    }
    let n: usize = if len % w == 0 {
        len / w
    } else {
        len / w + 1
    };
    if n <= 1 {
        1
    } else {
        n
    }
}

proof fn lemma_ceil(n: int, w: int)
    requires
        0 <= n,
        w > 0,
    ensures
        ceil_div(n, w) == (if n % w == 0 {
            n / w
        } else {
            n / w + 1
        }),
        n / w + 1 <= n + 1,
        n % w != 0 ==> n / w + 1 <= n,
        0 <= n / w,
{
    let q = n / w;
    let r = n % w;
    vstd::arithmetic::div_mod::lemma_fundamental_div_mod(n, w);
    vstd::arithmetic::div_mod::lemma_mod_bound(n, w);
    assert(0 <= q <= n) by (nonlinear_arith)
        requires
            n == w * q + r,
            0 <= r < w,
            n >= 0,
            w > 0,
    ;
    if r == 0 {
        vstd::arithmetic::div_mod::lemma_fundamental_div_mod_converse(n + w - 1, w, q, w - 1);
    } else {
        assert(w * (q + 1) == w * q + w) by (nonlinear_arith);
        vstd::arithmetic::div_mod::lemma_fundamental_div_mod_converse(n + w - 1, w, q + 1, r - 1);
        assert(q + 1 <= n) by (nonlinear_arith)
            requires
                n == w * q + r,
                0 < r < w,
                w > 0,
                q >= 0,
        ;
    }
}

fn margin_labels(buffer: &Buffer, off: usize, w: usize, height: usize) -> (labels: Vec<String>)
    requires
        w > 0 || height == 0 || off >= text::line_count(buffer@.text),
    ensures
        strings::texts(labels@) == labels_from(
            buffer@.text,
            off as int,
            w as int,
            height as int,
        ),
        labels@.len() <= height,
{
    let ghost t = buffer@.text;
    let ghost all = labels_from(t, off as int, w as int, height as int);
    let len_lines: usize = text::rope_len_lines(&buffer.buf);
    let mut labels: Vec<String> = Vec::new();
    let mut line: usize = off;
    assert(strings::texts(labels@) =~= Seq::<Seq<char>>::empty());
    assert(strings::texts(labels@) + all =~= all);
    while labels.len() < height && line < len_lines
        invariant
            len_lines == text::line_count(t),
            t == buffer@.text,
            labels@.len() <= height,
            w > 0 || height == 0 || line >= text::line_count(t),
            strings::texts(labels@) + labels_from(
                t,
                line as int,
                w as int,
                height - labels@.len(),
            ) == all,
        decreases len_lines - line,
    {
        let rows: usize = count_rows(buffer, line, w);
        let room: usize = height - labels.len();
        let rows: usize = if rows <= room {
            rows
        } else {
            room
        };
        let ghost before = labels@;
        let mut i: usize = 0;
        while i < rows
            invariant
                i <= rows,
                rows <= height - before.len(),
                labels@.len() == before.len() + i,
                forall|k: int| 0 <= k < before.len() ==> #[trigger] labels@[k] == before[k],
                forall|k: int|
                    before.len() <= k < before.len() + i ==> (#[trigger] labels@[k])@
                        == line_labels(line as int, rows as int)[k - before.len()],
            decreases rows - i,
        {
            if i == 0 {
                labels.push(margin_label(line));
            } else {
                labels.push(repeat_char(' ', 5));
            }
            i = i + 1;
        }
        proof {
            assert(strings::texts(labels@) =~= strings::texts(before) + line_labels(
                line as int,
                rows as int,
            ));
            let rest = labels_from(t, line + 1, w as int, height - labels@.len());
            assert(strings::texts(before) + (line_labels(line as int, rows as int) + rest) =~= (
            strings::texts(before) + line_labels(line as int, rows as int)) + rest);
        }
        line = line + 1;
    }
    assert(strings::texts(labels@) =~= all);
    labels
}

fn status(view: &TextView, buffer: &Buffer, cwd: &String) -> (s: String)
    ensures
        s@ == status_line(*view, buffer@, cwd@),
{
    let mut s: String = match view.mode {
        Mode::Normal => "NOR".to_string(),
        Mode::Insert => "INS".to_string(),
        Mode::Visual => "VIS".to_string(),
    };
    s.append(" ");
    let number: String = strings::to_decimal(view.buf.idx);
    s.append(number.as_str());
    s.append(" ");
    if buffer.check_flag(IS_SCRATCH) {
        let mut name: String = "[SCRATCH] ".to_string();
        name.append(cwd.as_str());
        s.append(name.as_str());
    } else {
        match &buffer.file {
            Some(p) => {
                s.append(p.as_str());
            },
            None => {
                let mut name: String = "[NEW_FILE] ".to_string();
                name.append(cwd.as_str());
                s.append(name.as_str());
            },
        }
    }
    s
}

// ---- the text of a view

/// A row of text on screen: where in the text it starts, what it shows, and
/// whether it stands for a line without text.
pub struct Row {
    pub at: usize,
    pub text: String,
    pub empty: bool,
}

#[verifier::ext_equal]
pub struct RowView {
    pub at: int,
    pub text: Seq<char>,
    pub empty: bool,
}

impl View for Row {
    type V = RowView;

    open spec fn view(&self) -> RowView {
        RowView { at: self.at as int, text: self.text@, empty: self.empty }
    }
}

pub open spec fn row_views(s: Seq<Row>) -> Seq<RowView> {
    s.map_values(|r: Row| r@)
}

pub open spec fn row_texts(s: Seq<RowView>) -> Seq<Seq<char>> {
    s.map_values(|r: RowView| r.text)
}

/// A line cut into rows of `w` characters, from `start` on, as far as there
/// is room.
pub open spec fn cut_rows(
    s: Seq<char>,
    at: int,
    start: int,
    w: int,
    room: int,
) -> Seq<RowView>
    decreases room,
{
    if start >= s.len() || room <= 0 {
        Seq::empty()
    } else {
        let end = motion::least(start + w, s.len() as int);
        seq![RowView { at: at + start, text: s.subrange(start, end), empty: false }] + cut_rows(
            s,
            at,
            end,
            w,
            room - 1,
        )
    }
}

/// A line without the line break at its end. The last line has none.
pub open spec fn bare_line(t: Seq<char>, line: int) -> Seq<char> {
    let s = text::line_text(t, line);
    if s.len() > 0 && text::is_break(s.last()) {
        s.drop_last()
    } else {
        s
    }
}

pub open spec fn rows_of_line(t: Seq<char>, line: int, w: int, room: int) -> Seq<RowView> {
    if bare_line(t, line).len() == 0 {
        seq![RowView { at: text::line_start(t, line), text: Seq::empty(), empty: true }]
    } else {
        cut_rows(bare_line(t, line), text::line_start(t, line), 0, w, room)
    }
}

/// The rows of text that are in sight, from a line on.
pub open spec fn rows_from(t: Seq<char>, line: int, w: int, room: int) -> Seq<RowView>
    decreases text::line_count(t) - line,
{
    if room <= 0 || line >= text::line_count(t) {
        Seq::empty()
    } else {
        let mine = rows_of_line(t, line, w, room);
        mine + rows_from(t, line + 1, w, room - mine.len())
    }
}

/// The rows of text that a view shows in its part of the screen.
pub open spec fn rows_in_sight(v: TextView, t: Seq<char>, rect: Rect) -> Seq<RowView> {
    rows_from(
        t,
        v.off as int,
        divide::monus(rect.w as int, 5),
        divide::monus(rect.h as int, 1),
    )
}

fn push_row(rows: &mut Vec<Row>, at: usize, text: String, empty: bool)
    ensures
        row_views(final(rows)@) == row_views(old(rows)@).push(
            RowView { at: at as int, text: text@, empty },
        ),
        final(rows)@.len() == old(rows)@.len() + 1,
{
    let ghost before = rows@;
    rows.push(Row { at, text, empty });
    assert(row_views(rows@) =~= row_views(before).push(
        RowView { at: at as int, text: text@, empty },
    ));
}

fn visible_rows(buffer: &Buffer, off: usize, w: usize, height: usize) -> (rows: Vec<Row>)
    ensures
        row_views(rows@) == rows_from(buffer@.text, off as int, w as int, height as int),
        rows@.len() <= height,
{
    let ghost t = buffer@.text;
    let ghost all = rows_from(t, off as int, w as int, height as int);
    let len_lines: usize = text::rope_len_lines(&buffer.buf);
    let total: usize = text::rope_len_chars(&buffer.buf);
    let mut rows: Vec<Row> = Vec::new();
    let mut line: usize = off;
    assert(row_views(rows@) + all =~= all);
    while rows.len() < height && line < len_lines
        invariant
            len_lines == text::line_count(t),
            total == t.len(),
            t == buffer@.text,
            rows@.len() <= height,
            row_views(rows@) + rows_from(t, line as int, w as int, height - rows@.len()) == all,
        decreases len_lines - line,
    {
        let whole: String = text::rope_get_line(&buffer.buf, line).unwrap();
        let at: usize = text::rope_line_to_char(&buffer.buf, line);
        let chars: Vec<char> = strings::chars_of(whole.as_str());
        let n: usize = if chars.len() > 0 && text::ends_line(chars[chars.len() - 1]) {
            chars.len() - 1
        } else {
            chars.len()
        };
        let ghost s = bare_line(t, line as int);
        let ghost room = height - rows@.len();
        let ghost before = row_views(rows@);
        proof {
            text::lemma_line_starts_ordered(t, line as int, line + 1);
            assert(s =~= chars@.take(n as int));
        }
        if n == 0 {
            push_row(&mut rows, at, String::new(), true);
            proof {
                let mine = rows_of_line(t, line as int, w as int, room);
                let rest = rows_from(t, line + 1, w as int, room - 1);
                assert(mine =~= seq![
                    RowView { at: at as int, text: Seq::empty(), empty: true },
                ]);
                assert(before + (mine + rest) =~= row_views(rows@) + rest);
            }
        } else {
            let mut start: usize = 0;
            proof {
                let mine = cut_rows(s, at as int, 0, w as int, room);
                lemma_cut_rows(s, at as int, 0, w as int, room);
                assert(before + (mine + rows_from(t, line + 1, w as int, room - mine.len())) =~= (
                before + mine) + rows_from(t, line + 1, w as int, room - mine.len()));
            }
            let ghost goal = before + cut_rows(s, at as int, 0, w as int, room);
            while start < n && rows.len() < height
                invariant
                    start <= n,
                    n == s.len(),
                    n <= chars@.len(),
                    s == chars@.take(n as int),
                    at + n <= total,
                    rows@.len() <= height,
                    row_views(rows@) + cut_rows(
                        s,
                        at as int,
                        start as int,
                        w as int,
                        height - rows@.len(),
                    ) == goal,
                decreases height - rows@.len(),
            {
                let ghost now = row_views(rows@);
                let end: usize = if w <= n - start {
                    start + w
                } else {
                    n
                };
                let piece: String = strings::string_of(&chars, start, end);
                assert(piece@ =~= s.subrange(start as int, end as int));
                push_row(&mut rows, at + start, piece, false);
                proof {
                    let first = RowView {
                        at: at + start,
                        text: s.subrange(start as int, end as int),
                        empty: false,
                    };
                    let rest = cut_rows(
                        s,
                        at as int,
                        end as int,
                        w as int,
                        height - rows@.len(),
                    );
                    assert(now + (seq![first] + rest) =~= now.push(first) + rest);
                }
                start = end;
            }
            proof {
                assert(row_views(rows@) =~= goal);
            }
        }
        line = line + 1;
    }
    assert(row_views(rows@) =~= all);
    rows
}

proof fn lemma_cut_rows(s: Seq<char>, at: int, start: int, w: int, room: int)
    requires
        0 <= start,
        0 <= w,
    ensures
        room >= 0 ==> cut_rows(s, at, start, w, room).len() <= room,
        room > 0 && start < s.len() ==> cut_rows(s, at, start, w, room).len() >= 1,
    decreases room,
{
    if start < s.len() && room > 0 {
        lemma_cut_rows(s, at, motion::least(start + w, s.len() as int), w, room - 1);
    }
}

// ---- the selection of a view

pub open spec fn in_range(i: int, a: int, b: int) -> bool {
    a <= i < b
}

pub open spec fn selected_cell(c: char) -> Cell {
    Cell { c, fg: screen::text_bg(), bg: screen::selection_bg() }
}

impl ScreenView {
    /// The first `n` characters of a row, as far as they are selected.
    pub open spec fn with_selected_chars(
        self,
        x: int,
        y: int,
        row: RowView,
        a: int,
        b: int,
        n: int,
    ) -> ScreenView
        decreases n,
    {
        if n <= 0 {
            self
        } else {
            let s = self.with_selected_chars(x, y, row, a, b, n - 1);
            if in_range(row.at + n - 1, a, b) {
                s.with_cell(x + n - 1, y, selected_cell(row.text[n - 1]))
            } else {
                s
            }
        }
    }

    /// A row as far as it is selected; one without text shows a blank.
    pub open spec fn with_selected_row(
        self,
        x: int,
        y: int,
        row: RowView,
        a: int,
        b: int,
    ) -> ScreenView {
        if row.empty {
            if in_range(row.at, a, b) {
                self.with_cell(x, y, selected_cell(' '))
            } else {
                self
            }
        } else {
            self.with_selected_chars(x, y, row, a, b, row.text.len() as int)
        }
    }

    pub open spec fn with_selected_rows(
        self,
        x: int,
        y: int,
        rows: Seq<RowView>,
        a: int,
        b: int,
    ) -> ScreenView
        decreases rows.len(),
    {
        if rows.len() == 0 {
            self
        } else {
            self.with_selected_rows(x, y, rows.drop_last(), a, b).with_selected_row(
                x,
                y + rows.len() - 1,
                rows.last(),
                a,
                b,
            )
        }
    }

    /// Every cell of a row that is selected is on the screen.
    pub open spec fn row_selection_fits(
        self,
        x: int,
        y: int,
        row: RowView,
        a: int,
        b: int,
    ) -> bool {
        if row.empty {
            in_range(row.at, a, b) ==> x <= u16::MAX && self.has_cell(x, y)
        } else {
            forall|k: int|
                0 <= k < row.text.len() && #[trigger] in_range(row.at + k, a, b) ==> {
                    &&& x + k <= u16::MAX
                    &&& self.has_cell(x + k, y)
                }
        }
    }

    pub open spec fn selection_fits(
        self,
        x: int,
        y: int,
        rows: Seq<RowView>,
        a: int,
        b: int,
    ) -> bool {
        forall|i: int|
            0 <= i < rows.len() ==> self.row_selection_fits(x, y + i, #[trigger] rows[i], a, b)
    }
}

fn draw_selected_row(
    target: &mut ScreenBuffer,
    x: u16,
    y: u16,
    row: &Row,
    a: usize,
    b: usize,
)
    requires
        old(target)@.wf(),
        old(target)@.row_selection_fits(x + 5, y as int, row@, a as int, b as int),
        row.at + row.text@.len() <= usize::MAX,
    ensures
        final(target)@ == old(target)@.with_selected_row(
            x + 5,
            y as int,
            row@,
            a as int,
            b as int,
        ),
        final(target)@.wf(),
        final(target)@.width == old(target)@.width,
        final(target)@.height == old(target)@.height,
{
    let ghost start = target@;
    if row.empty {
        if a <= row.at && row.at < b {
            assert(in_range(row.at as int, a as int, b as int));
            target.set_cell_xy(
                x + 5,
                y,
                Cell { c: ' ', fg: screen::back_color(), bg: screen::selection_color() },
            );
            proof {
                lemma_with_cell_wf(start, x + 5, y as int, selected_cell(' '));
            }
        }
    } else {
        let chars: Vec<char> = strings::chars_of(row.text.as_str());
        let mut k: usize = 0;
        while k < chars.len()
            invariant
                k <= chars@.len(),
                chars@ == row.text@,
                !row.empty,
                row.at + row.text@.len() <= usize::MAX,
                start.row_selection_fits(x + 5, y as int, row@, a as int, b as int),
                target@ == start.with_selected_chars(
                    x + 5,
                    y as int,
                    row@,
                    a as int,
                    b as int,
                    k as int,
                ),
                target@.wf(),
                target@.width == start.width,
                target@.height == start.height,
                target@.cells.len() == start.cells.len(),
            decreases chars@.len() - k,
        {
            let idx: usize = row.at + k;
            if a <= idx && idx < b {
                assert(in_range(row@.at + k, a as int, b as int));
                assert(start.has_cell(x + 5 + k, y as int));
                let ghost now = target@;
                proof {
                    lemma_has_cell_same(start, now, x + 5 + k, y as int);
                }
                target.set_cell_xy(
                    x + 5 + k as u16,
                    y,
                    Cell { c: chars[k], fg: screen::back_color(), bg: screen::selection_color() },
                );
                proof {
                    lemma_with_cell_wf(now, x + 5 + k, y as int, selected_cell(chars@[k as int]));
                }
            }
            k = k + 1;
        }
    }
}

proof fn lemma_has_cell_same(s: ScreenView, t: ScreenView, x: int, y: int)
    requires
        s.has_cell(x, y),
        t.width == s.width,
        t.cells.len() == s.cells.len(),
    ensures
        t.has_cell(x, y),
{
}

proof fn lemma_with_cell_wf(s: ScreenView, x: int, y: int, c: Cell)
    requires
        s.wf(),
        s.has_cell(x, y),
        0 <= x,
        0 <= y,
    ensures
        s.with_cell(x, y, c).wf(),
        s.with_cell(x, y, c).cells.len() == s.cells.len(),
        s.with_cell(x, y, c).width == s.width,
        s.with_cell(x, y, c).height == s.height,
{
    assert(0 <= y * s.width) by (nonlinear_arith)
        requires
            0 <= y,
            0 <= s.width,
    ;
}

// ---- a view

impl ScreenView {
    /// The line numbers and the status line.
    pub open spec fn with_decoration(
        self,
        v: TextView,
        b: BufferView,
        rect: Rect,
        cwd: Seq<char>,
    ) -> ScreenView {
        self.with_lines(
            rect.x as int,
            rect.y as int,
            labels_from(
                b.text,
                v.off as int,
                divide::monus(rect.w as int, 4),
                rect.h as int,
            ),
        ).with_string(
            rect.x as int,
            rect.y + divide::monus(rect.h as int, 1),
            status_line(v, b, cwd),
            screen::text_fg(),
            screen::text_bg(),
        )
    }

    pub open spec fn with_text(self, v: TextView, b: BufferView, rect: Rect) -> ScreenView {
        self.with_lines(rect.x + 5, rect.y as int, row_texts(rows_in_sight(v, b.text, rect)))
    }

    pub open spec fn with_selection(self, v: TextView, b: BufferView, rect: Rect) -> ScreenView {
        match v.selection {
            Some(sel) => self.with_selected_rows(
                rect.x + 5,
                rect.y as int,
                rows_in_sight(v, b.text, rect),
                sel.0 as int,
                sel.1 as int,
            ),
            None => self,
        }
    }

    /// A view in its part of the screen.
    pub open spec fn with_view(
        self,
        v: TextView,
        b: BufferView,
        rect: Rect,
        cwd: Seq<char>,
    ) -> ScreenView {
        self.blanked(rect).with_decoration(v, b, rect, cwd).with_text(v, b, rect).with_selection(
            v,
            b,
            rect,
        )
    }

    /// A view fits in its part of the screen: lines can be numbered, rows can
    /// be counted, and what is selected is on the screen.
    pub open spec fn view_fits(self, v: TextView, b: BufferView, rect: Rect) -> bool {
        &&& rows_fit(rect)
        &&& rect.w > 4 || rect.h == 0 || v.off >= text::line_count(b.text)
        &&& rows_in_sight(v, b.text, rect).len() > 0 ==> rect.x + 5 <= u16::MAX
        &&& v.selection matches Some(sel) ==> self.selection_fits(
            rect.x + 5,
            rect.y as int,
            rows_in_sight(v, b.text, rect),
            sel.0 as int,
            sel.1 as int,
        )
    }
}

fn deco_sketch(
    view: &TextView,
    rect: &Rect,
    buffer: &Buffer,
    target: &mut ScreenBuffer,
    cwd: &String,
)
    requires
        old(target)@.wf(),
        rows_fit(*rect),
        rect.w > 4 || rect.h == 0 || view.off >= text::line_count(buffer@.text),
    ensures
        final(target)@ == old(target)@.with_decoration(*view, buffer@, *rect, cwd@),
        final(target)@.wf(),
{
    let w: usize = rect.w.saturating_sub(4) as usize;
    let labels: Vec<String> = margin_labels(buffer, view.off, w, rect.h as usize);
    draw_lines(target, rect.x, rect.y, &labels);
    let s: String = status(view, buffer, cwd);
    target.set_string_xy(
        rect.x,
        rect.y + rect.h.saturating_sub(1),
        s.as_str(),
        screen::text_color(),
        screen::back_color(),
    );
}

/// Draws a view in its part of the screen.
pub fn view_sketch(
    view: &TextView,
    rect: &Rect,
    buffer: &Buffer,
    target: &mut ScreenBuffer,
    cwd: &String,
)
    requires
        old(target)@.wf(),
        old(target)@.view_fits(*view, buffer@, *rect),
    ensures
        final(target)@ == old(target)@.with_view(*view, buffer@, *rect, cwd@),
        final(target)@.wf(),
        final(target)@.width == old(target)@.width,
        final(target)@.height == old(target)@.height,
{
    let ghost start = target@;
    blank(target, rect);
    deco_sketch(view, rect, buffer, target, cwd);
    let rows: Vec<Row> = visible_rows(
        buffer,
        view.off,
        rect.w.saturating_sub(5) as usize,
        rect.h.saturating_sub(1) as usize,
    );
    let ghost seen = rows_in_sight(*view, buffer@.text, *rect);
    assert(row_views(rows@).len() == rows@.len());
    if rows.len() > 0 {
        draw_rows(target, rect.x + 5, rect.y, &rows);
    } else {
        assert(row_texts(seen) =~= Seq::<Seq<char>>::empty());
    }
    proof {
        lemma_shape_kept(start, *view, buffer@, *rect, cwd@);
    }
    let ghost plain = target@;
    match view.selection {
        Some(sel) => {
            let _total: usize = text::rope_len_chars(&buffer.buf);
            let mut i: usize = 0;
            assert(seen.take(0) =~= Seq::<RowView>::empty());
            while i < rows.len()
                invariant
                    i <= rows@.len(),
                    rows@.len() <= divide::monus(rect.h as int, 1),
                    rows_fit(*rect),
                    seen == row_views(rows@),
                    seen == rows_in_sight(*view, buffer@.text, *rect),
                    _total == buffer@.text.len(),
                    rows@.len() > 0 ==> rect.x + 5 <= u16::MAX,
                    target@.wf(),
                    target@.width == start.width,
                    target@.height == start.height,
                    plain.cells.len() == start.cells.len(),
                    plain.width == start.width,
                    target@.cells.len() == start.cells.len(),
                    start.selection_fits(
                        rect.x + 5,
                        rect.y as int,
                        seen,
                        sel.0 as int,
                        sel.1 as int,
                    ),
                    target@ == plain.with_selected_rows(
                        rect.x + 5,
                        rect.y as int,
                        seen.take(i as int),
                        sel.0 as int,
                        sel.1 as int,
                    ),
                decreases rows@.len() - i,
            {
                proof {
                    assert(seen.take(i + 1).drop_last() =~= seen.take(i as int));
                    assert(seen.take(i + 1).last() == seen[i as int]);
                    assert(seen[i as int] == rows@[i as int]@);
                    lemma_fits_same(
                        start,
                        target@,
                        rect.x + 5,
                        rect.y + i,
                        seen[i as int],
                        sel.0 as int,
                        sel.1 as int,
                    );
                    lemma_rows_inside(
                        buffer@.text,
                        view.off as int,
                        divide::monus(rect.w as int, 5),
                        divide::monus(rect.h as int, 1),
                        i as int,
                    );
                }
                draw_selected_row(target, rect.x, rect.y + i as u16, &rows[i], sel.0, sel.1);
                i = i + 1;
            }
            assert(seen.take(i as int) =~= seen);
        },
        None => {},
    }
}

fn draw_rows(target: &mut ScreenBuffer, x: u16, y: u16, rows: &Vec<Row>)
    requires
        old(target)@.wf(),
        y + rows@.len() <= u16::MAX,
    ensures
        final(target)@ == old(target)@.with_lines(
            x as int,
            y as int,
            row_texts(row_views(rows@)),
        ),
        final(target)@.wf(),
{
    let mut lines: Vec<String> = Vec::new();
    let mut i: usize = 0;
    while i < rows.len()
        invariant
            i <= rows@.len(),
            lines@.len() == i,
            forall|k: int| 0 <= k < i ==> (#[trigger] lines@[k])@ == rows@[k].text@,
        decreases rows@.len() - i,
    {
        let s: String = rows[i].text.clone();
        lines.push(s);
        i = i + 1;
    }
    assert(strings::texts(lines@) =~= row_texts(row_views(rows@)));
    draw_lines(target, x, y, &lines);
}

proof fn lemma_fits_same(
    s: ScreenView,
    t: ScreenView,
    x: int,
    y: int,
    row: RowView,
    a: int,
    b: int,
)
    requires
        s.row_selection_fits(x, y, row, a, b),
        t.width == s.width,
        t.cells.len() == s.cells.len(),
    ensures
        t.row_selection_fits(x, y, row, a, b),
{
    if row.empty {
        if in_range(row.at, a, b) {
            lemma_has_cell_same(s, t, x, y);
        }
    } else {
        assert forall|k: int|
            0 <= k < row.text.len() && #[trigger] in_range(row.at + k, a, b) implies {
            &&& x + k <= u16::MAX
            &&& t.has_cell(x + k, y)
        } by {
            lemma_has_cell_same(s, t, x + k, y);
        }
    }
}

/// Drawing a view keeps the shape of the screen.
proof fn lemma_shape_kept(s: ScreenView, v: TextView, b: BufferView, rect: Rect, cwd: Seq<char>)
    requires
        s.wf(),
    ensures
        ({
            let t = s.blanked(rect).with_decoration(v, b, rect, cwd).with_text(v, b, rect);
            &&& t.wf()
            &&& t.width == s.width
            &&& t.height == s.height
            &&& t.cells.len() == s.cells.len()
        }),
{
    let blanks = Seq::new(rect.h as nat, |i: int| repeated(' ', rect.w as int));
    lemma_with_lines_wf(s, rect.x as int, rect.y as int, blanks);
    let labels = labels_from(
        b.text,
        v.off as int,
        divide::monus(rect.w as int, 4),
        rect.h as int,
    );
    let s1 = s.blanked(rect);
    lemma_with_lines_wf(s1, rect.x as int, rect.y as int, labels);
    let s2 = s1.with_decoration(v, b, rect, cwd);
    lemma_with_lines_wf(
        s2,
        rect.x + 5,
        rect.y as int,
        row_texts(rows_in_sight(v, b.text, rect)),
    );
}

/// The rows in sight are pieces of the text.
proof fn lemma_rows_inside(t: Seq<char>, line: int, w: int, room: int, i: int)
    requires
        0 <= line,
        0 <= w,
        0 <= i < rows_from(t, line, w, room).len(),
    ensures
        0 <= rows_from(t, line, w, room)[i].at,
        rows_from(t, line, w, room)[i].at + rows_from(t, line, w, room)[i].text.len() <= t.len(),
    decreases text::line_count(t) - line,
{
    if room > 0 && line < text::line_count(t) {
        let mine = rows_of_line(t, line, w, room);
        text::lemma_line_starts_ordered(t, line, line + 1);
        if i < mine.len() {
            if bare_line(t, line).len() > 0 {
                lemma_cut_inside(
                    bare_line(t, line),
                    text::line_start(t, line),
                    0,
                    w,
                    room,
                    i,
                );
            }
        } else {
            lemma_rows_inside(t, line + 1, w, room - mine.len(), i - mine.len());
        }
    }
}

proof fn lemma_cut_inside(s: Seq<char>, at: int, start: int, w: int, room: int, i: int)
    requires
        0 <= start,
        0 <= w,
        0 <= i < cut_rows(s, at, start, w, room).len(),
    ensures
        at <= cut_rows(s, at, start, w, room)[i].at,
        cut_rows(s, at, start, w, room)[i].at + cut_rows(s, at, start, w, room)[i].text.len()
            <= at + s.len(),
    decreases room,
{
    if start < s.len() && room > 0 && i > 0 {
        lemma_cut_inside(s, at, motion::least(start + w, s.len() as int), w, room - 1, i - 1);
    }
}

// ---- where the cursor of a view is

/// How many rows the lines from `a` up to `b` take.
pub open spec fn rows_between(t: Seq<char>, w: int, a: int, b: int) -> int
    decreases b - a,
{
    if a >= b {
        0
    } else {
        rows_between(t, w, a, b - 1) + rows_of(t, b - 1, w)
    }
}

pub open spec fn view_style(mode: Mode) -> CursorStyle {
    match mode {
        Mode::Normal => CursorStyle::SteadyBlock,
        Mode::Insert => CursorStyle::SteadyBar,
        Mode::Visual => CursorStyle::SteadyUnderScore,
    }
}

/// The row of the cursor below the first line in sight.
pub open spec fn cursor_row(v: TextView, t: Seq<char>, w: int) -> int {
    rows_between(t, w, v.off as int, v.line(t)) + v.column(t) / w
}

/// Where the cursor of a view is on screen, and how it looks.
pub open spec fn view_cursor(v: TextView, t: Seq<char>, rect: Rect) -> (int, int, CursorStyle) {
    let w = divide::monus(rect.w as int, 4);
    if w == 0 {
        (rect.x + 5, rect.y as int, CursorStyle::SteadyBar)
    } else {
        (
            rect.x + v.column(t) % w + 5,
            rect.y + (cursor_row(v, t, w) as u16),
            view_style(v.mode),
        )
    }
}

pub open spec fn view_cursor_fits(v: TextView, t: Seq<char>, rect: Rect) -> bool {
    &&& rect.w > 4 ==> v.cursor <= t.len()
    &&& view_cursor(v, t, rect).0 <= u16::MAX
    &&& view_cursor(v, t, rect).1 <= u16::MAX
}

proof fn lemma_rows_between(t: Seq<char>, w: int, a: int, b: int)
    requires
        0 <= a <= b < text::line_count(t),
        w > 0,
    ensures
        0 <= rows_between(t, w, a, b) <= text::line_start(t, b) - text::line_start(t, a),
        0 <= text::line_start(t, a),
    decreases b - a,
{
    text::lemma_line_starts_ordered(t, a, b);
    if a < b {
        lemma_rows_between(t, w, a, b - 1);
        lemma_rows_of(t, b - 1, w);
        text::lemma_inner_line(t, b - 1);
    }
}

/// How far right and down of the first row the cursor of a view is.
fn cursor_offsets(view: &TextView, rect: &Rect, buffer: &Buffer) -> (res: (u16, u16))
    requires
        rect.w > 4,
        view.cursor <= buffer@.text.len(),
    ensures
        res.0 == view.column(buffer@.text) % (rect.w - 4),
        res.1 == cursor_row(*view, buffer@.text, rect.w - 4) as u16,
{
    let ghost t = buffer@.text;
    let w: usize = (rect.w - 4) as usize;
    proof {
        text::lemma_line_at(t, view.cursor as int);
    }
    let _total: usize = text::rope_len_chars(&buffer.buf);
    let line: usize = text::rope_char_to_line(&buffer.buf, view.cursor);
    let line_start: usize = text::rope_line_to_char(&buffer.buf, line);
    let column: usize = view.cursor - line_start;
    let y: usize = column / w;
    let x: usize = column % w;
    let mut nested_y: usize = 0;
    let mut line_idx: usize = view.off;
    while line_idx < line
        invariant
            view.off <= line_idx,
            line_idx <= line || line_idx == view.off,
            w > 0,
            t == buffer@.text,
            _total == t.len(),
            line < text::line_count(t),
            nested_y == rows_between(t, w as int, view.off as int, line_idx as int),
        decreases line - line_idx,
    {
        proof {
            lemma_rows_between(t, w as int, view.off as int, line_idx + 1);
            text::lemma_line_starts_ordered(t, line_idx + 1, line_idx + 1);
        }
        nested_y = nested_y + count_rows(buffer, line_idx, w);
        line_idx = line_idx + 1;
    }
    proof {
        if view.off <= line {
            lemma_rows_between(t, w as int, view.off as int, line as int);
        }
        let c = column as int;
        let ww = w as int;
        assert(0 <= c / ww <= c) by (nonlinear_arith)
            requires
                c >= 0,
                ww > 0,
        ;
        assert(0 <= c % ww < ww) by (nonlinear_arith)
            requires
                c >= 0,
                ww > 0,
        ;
    }
    nested_y = nested_y + y;
    assert(nested_y == cursor_row(*view, t, w as int));
    (x as u16, #[verifier::truncate] (nested_y as u16))
}

/// Where the cursor of a view is on screen, and how it looks.
pub fn view_cursor_xy(view: &TextView, rect: &Rect, buffer: &Buffer) -> (res: (
    u16,
    u16,
    CursorStyle,
))
    requires
        view_cursor_fits(*view, buffer@.text, *rect),
    ensures
        res.0 == view_cursor(*view, buffer@.text, *rect).0,
        res.1 == view_cursor(*view, buffer@.text, *rect).1,
        res.2 == view_cursor(*view, buffer@.text, *rect).2,
{
    if rect.w <= 4 {
        return (rect.x + 5, rect.y, CursorStyle::SteadyBar);
    }
    let (x, y) = cursor_offsets(view, rect, buffer);
    let style: CursorStyle = match view.mode {
        Mode::Normal => CursorStyle::SteadyBlock,
        Mode::Insert => CursorStyle::SteadyBar,
        Mode::Visual => CursorStyle::SteadyUnderScore,
    };
    (rect.x + x + 5, rect.y + y, style)
}

// ---- whether a view fits

/// Whether the selected part of a row is on the screen.
fn selected_row_is_in(
    target: &ScreenBuffer,
    x: u64,
    y: u64,
    row: &Row,
    a: usize,
    b: usize,
) -> (res: bool)
    requires
        x <= 2 * u16::MAX,
        y <= 2 * u16::MAX,
        row.at + row.text@.len() <= usize::MAX,
        row.text@.len() <= u16::MAX,
    ensures
        res == target@.row_selection_fits(x as int, y as int, row@, a as int, b as int),
{
    if row.empty {
        let selected: bool = a <= row.at && row.at < b;
        assert(selected == in_range(row@.at, a as int, b as int));
        !selected || (x <= u16::MAX as u64 && target.has_cell_at(x, y))
    } else {
        let n: usize = row.text.as_str().unicode_len();
        let mut k: usize = 0;
        while k < n
            invariant
                k <= n,
                n == row.text@.len(),
                n <= u16::MAX,
                !row.empty,
                x <= 2 * u16::MAX,
                y <= 2 * u16::MAX,
                row.at + n <= usize::MAX,
                forall|j: int|
                    0 <= j < k && #[trigger] in_range(row@.at + j, a as int, b as int) ==> {
                        &&& x + j <= u16::MAX
                        &&& target@.has_cell(x + j, y as int)
                    },
            decreases n - k,
        {
            let idx: usize = row.at + k;
            if a <= idx && idx < b {
                assert(in_range(row@.at + k, a as int, b as int));
                if x + k as u64 > u16::MAX as u64 || !target.has_cell_at(x + k as u64, y) {
                    return false;
                }
            }
            k = k + 1;
        }
        true
    }
}

/// Whether what a view shows fits in its part of the screen.
pub fn view_is_in(view: &TextView, rect: &Rect, buffer: &Buffer, target: &ScreenBuffer) -> (res:
    bool)
    ensures
        res == target@.view_fits(*view, buffer@, *rect),
{
    if rect.y as u32 + rect.h as u32 > u16::MAX as u32 + 1 {
        return false;
    }
    if !(rect.w > 4 || rect.h == 0 || view.off >= text::rope_len_lines(&buffer.buf)) {
        return false;
    }
    let rows: Vec<Row> = visible_rows(
        buffer,
        view.off,
        rect.w.saturating_sub(5) as usize,
        rect.h.saturating_sub(1) as usize,
    );
    let ghost seen = rows_in_sight(*view, buffer@.text, *rect);
    assert(row_views(rows@).len() == rows@.len());
    if rows.len() > 0 && rect.x > u16::MAX - 5 {
        return false;
    }
    match view.selection {
        Some(sel) => {
            let _total: usize = text::rope_len_chars(&buffer.buf);
            let x: u64 = rect.x as u64 + 5;
            let mut i: usize = 0;
            while i < rows.len()
                invariant
                    i <= rows@.len(),
                    view.selection == Some(sel),
                    x == rect.x + 5,
                    rows@.len() <= divide::monus(rect.h as int, 1),
                    seen == row_views(rows@),
                    seen == rows_in_sight(*view, buffer@.text, *rect),
                    _total == buffer@.text.len(),
                    forall|j: int|
                        0 <= j < i ==> target@.row_selection_fits(
                            x as int,
                            rect.y + j,
                            #[trigger] seen[j],
                            sel.0 as int,
                            sel.1 as int,
                        ),
                decreases rows@.len() - i,
            {
                proof {
                    assert(seen[i as int] == rows@[i as int]@);
                    let (w, h) = (
                        divide::monus(rect.w as int, 5),
                        divide::monus(rect.h as int, 1),
                    );
                    lemma_rows_inside(buffer@.text, view.off as int, w, h, i as int);
                    lemma_rows_narrow(buffer@.text, view.off as int, w, h, i as int);
                }
                if !selected_row_is_in(
                    target,
                    x,
                    rect.y as u64 + i as u64,
                    &rows[i],
                    sel.0,
                    sel.1,
                ) {
                    return false;
                }
                i = i + 1;
            }
            true
        },
        None => true,
    }
}

/// No row is wider than the view.
proof fn lemma_rows_narrow(t: Seq<char>, line: int, w: int, room: int, i: int)
    requires
        0 <= line,
        0 <= w,
        0 <= i < rows_from(t, line, w, room).len(),
    ensures
        rows_from(t, line, w, room)[i].text.len() <= w,
    decreases text::line_count(t) - line,
{
    if room > 0 && line < text::line_count(t) {
        let mine = rows_of_line(t, line, w, room);
        if i < mine.len() {
            if bare_line(t, line).len() > 0 {
                lemma_cut_narrow(bare_line(t, line), text::line_start(t, line), 0, w, room, i);
            }
        } else {
            lemma_rows_narrow(t, line + 1, w, room - mine.len(), i - mine.len());
        }
    }
}

proof fn lemma_cut_narrow(s: Seq<char>, at: int, start: int, w: int, room: int, i: int)
    requires
        0 <= start,
        0 <= w,
        0 <= i < cut_rows(s, at, start, w, room).len(),
    ensures
        cut_rows(s, at, start, w, room)[i].text.len() <= w,
    decreases room,
{
    if start < s.len() && room > 0 && i > 0 {
        lemma_cut_narrow(s, at, motion::least(start + w, s.len() as int), w, room - 1, i - 1);
    }
}

/// Whether the cursor of a view can be placed on the screen.
pub fn view_cursor_is_in(view: &TextView, rect: &Rect, buffer: &Buffer) -> (res: bool)
    ensures
        res == view_cursor_fits(*view, buffer@.text, *rect),
{
    if rect.w <= 4 {
        return rect.x <= u16::MAX - 5;
    }
    if view.cursor > text::rope_len_chars(&buffer.buf) {
        return false;
    }
    let (x, y) = cursor_offsets(view, rect, buffer);
    x as u32 + rect.x as u32 + 5 <= u16::MAX as u32 && y <= u16::MAX - rect.y
}

} // verus!
