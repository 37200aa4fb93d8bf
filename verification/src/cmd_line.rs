//! The command line: one line of text with a cursor that counts in bytes.
use vstd::prelude::*;
use vstd::string::*;
use crate::divide;
use crate::layout::Rect;
use crate::strings;
use crate::terminal::CursorStyle;
use crate::tree::LeafIdx;
use crate::views::ViewIdx;

verus! {

#[derive(Clone, Copy, PartialEq, Eq, Structural)]
pub enum Mode {
    Normal,
    Insert,
    Visual,
}

pub struct CmdLine {
    pub mode: Mode,
    pub input: String,
    pub cursor: usize,
    pub error: bool,
    pub selection: Option<(usize, usize)>,
    pub last_view: (LeafIdx, ViewIdx),
}

#[verifier::ext_equal]
pub struct CmdLineView {
    pub mode: Mode,
    pub input: Seq<char>,
    pub cursor: int,
    pub error: bool,
    pub selection: Option<(usize, usize)>,
    pub last_view: (LeafIdx, ViewIdx),
}

impl View for CmdLine {
    type V = CmdLineView;

    open spec fn view(&self) -> CmdLineView {
        CmdLineView {
            mode: self.mode,
            input: self.input@,
            cursor: self.cursor as int,
            error: self.error,
            selection: self.selection,
            last_view: self.last_view,
        }
    }
}

/// The byte position behind the character at byte position `b`.
pub open spec fn next_start(s: Seq<char>, b: int) -> int {
    b + strings::width(s[strings::char_at(s, b)])
}

/// The last of the first `n` characters that starts before byte position `b`:
/// where it starts, or the start of the text.
pub open spec fn prev_from(s: Seq<char>, b: int, n: int) -> int
    decreases n,
{
    if n <= 0 {
        0
    } else if strings::byte_at(s, n - 1) < b {
        strings::byte_at(s, n - 1)
    } else {
        prev_from(s, b, n - 1)
    }
}

/// Where the last character that starts before byte position `b` starts.
pub open spec fn prev_start(s: Seq<char>, b: int) -> int {
    prev_from(s, b, s.len() as int)
}

pub open spec fn style_of(mode: Mode) -> CursorStyle {
    match mode {
        Mode::Normal => CursorStyle::SteadyBlock,
        Mode::Visual => CursorStyle::SteadyUnderScore,
        Mode::Insert => CursorStyle::SteadyBar,
    }
}

impl CmdLineView {
    pub open spec fn fresh() -> CmdLineView {
        CmdLineView {
            mode: Mode::Insert,
            input: Seq::empty(),
            cursor: 0,
            error: false,
            selection: None,
            last_view: (LeafIdx(usize::MAX), ViewIdx(usize::MAX)),
        }
    }

    /// The cursor stands between two characters or at an end of the line.
    pub open spec fn on_char(self) -> bool {
        strings::is_boundary(self.input, self.cursor)
    }

    pub open spec fn at_end(self) -> bool {
        self.cursor == strings::utf8_len(self.input)
    }

    /// An error message gives way to an empty line.
    pub open spec fn cleared(self) -> CmdLineView {
        if self.error {
            CmdLineView { cursor: 0, input: Seq::empty(), error: false, ..self }
        } else {
            self
        }
    }

    pub open spec fn inserted(self, c: char) -> CmdLineView {
        let l = self.cleared();
        CmdLineView {
            input: l.input.insert(strings::char_at(l.input, l.cursor), c),
            cursor: l.cursor + strings::width(c),
            ..l
        }
    }

    pub open spec fn erased(self) -> CmdLineView {
        let l = self.cleared();
        if l.cursor > 0 {
            let k = strings::char_at(l.input, l.cursor) - 1;
            CmdLineView {
                input: l.input.remove(k),
                cursor: l.cursor - strings::width(l.input[k]),
                ..l
            }
        } else {
            l
        }
    }

    /// The line can be typed in: it holds an error message, which goes, or the
    /// cursor is on a character.
    pub open spec fn can_edit(self) -> bool {
        self.error || self.on_char()
    }

    pub open spec fn erased_times(self, n: nat) -> CmdLineView
        decreases n,
    {
        if n == 0 {
            self
        } else {
            self.erased_times((n - 1) as nat).erased()
        }
    }

    pub open spec fn inserted_all(self, s: Seq<char>) -> CmdLineView
        decreases s.len(),
    {
        if s.len() == 0 {
            self
        } else {
            self.inserted_all(s.drop_last()).inserted(s.last())
        }
    }

    pub open spec fn with_error(self, s: Seq<char>) -> CmdLineView {
        CmdLineView { error: true, input: s, ..self }
    }

    pub open spec fn moved_left(self) -> CmdLineView {
        if self.cursor == 0 {
            self
        } else {
            CmdLineView { cursor: prev_start(self.input, self.cursor), ..self }
        }
    }

    pub open spec fn moved_right(self) -> CmdLineView {
        if self.at_end() {
            self
        } else {
            CmdLineView { cursor: next_start(self.input, self.cursor), ..self }
        }
    }

    pub open spec fn selection_moved_left(self) -> CmdLineView {
        let l = self.moved_left();
        match l.selection {
            Some(sel) => CmdLineView {
                selection: Some(
                    if l.cursor > sel.0 {
                        (sel.0, l.cursor as usize)
                    } else {
                        (l.cursor as usize, sel.1)
                    },
                ),
                ..l
            },
            None => l,
        }
    }

    pub open spec fn selection_moved_right(self) -> CmdLineView {
        let l = self.moved_right();
        match l.selection {
            Some(sel) => if l.cursor < sel.1 {
                CmdLineView { selection: Some((l.cursor as usize, sel.1)), ..l }
            } else if l.at_end() {
                l
            } else {
                CmdLineView { selection: Some((sel.0, l.stretched_end(sel.1 as int) as usize)), ..l }
            },
            None => l,
        }
    }

    /// The end of the selection goes on by the character at the cursor, or to
    /// the end of the line where that is the last one.
    pub open spec fn stretched_end(self, end: int) -> int {
        if next_start(self.input, self.cursor) == strings::utf8_len(self.input) {
            strings::utf8_len(self.input)
        } else {
            end + next_start(self.input, self.cursor) - self.cursor
        }
    }

    /// The end of the selection stays within `usize`.
    pub open spec fn can_stretch(self) -> bool {
        let l = self.moved_right();
        l.selection matches Some(sel) ==> l.cursor < sel.1 || l.at_end() || l.stretched_end(
            sel.1 as int,
        ) <= usize::MAX
    }

    pub open spec fn in_normal(self) -> CmdLineView {
        CmdLineView { selection: None, mode: Mode::Normal, ..self }
    }

    pub open spec fn in_insert(self) -> CmdLineView {
        CmdLineView { selection: None, mode: Mode::Insert, ..self }
    }

    pub open spec fn in_visual(self) -> CmdLineView {
        let end = if self.at_end() {
            self.cursor
        } else {
            next_start(self.input, self.cursor)
        };
        CmdLineView {
            mode: Mode::Visual,
            selection: Some((self.cursor as usize, end as usize)),
            ..self
        }
    }

    /// What is selected goes out, one character for each byte of it; without
    /// a selection the character in front of the cursor does.
    pub open spec fn deleted(self) -> CmdLineView {
        match self.selection {
            Some(sel) => (CmdLineView { cursor: sel.1 as int, ..self }).erased_times(
                divide::monus(sel.1 as int, sel.0 as int) as nat,
            ).in_normal(),
            None => self.erased(),
        }
    }

    pub open spec fn can_delete(self) -> bool {
        match self.selection {
            Some(sel) => (CmdLineView { cursor: sel.1 as int, ..self }).can_edit(),
            None => self.can_edit(),
        }
    }

    pub open spec fn can_yank(self) -> bool {
        self.selection matches Some(sel) ==> {
            &&& sel.0 <= sel.1
            &&& strings::is_boundary(self.input, sel.0 as int)
            &&& strings::is_boundary(self.input, sel.1 as int)
        }
    }

    /// The characters between two byte positions.
    pub open spec fn between(self, sel: (usize, usize)) -> Seq<char> {
        self.input.subrange(
            strings::char_at(self.input, sel.0 as int),
            strings::char_at(self.input, sel.1 as int),
        )
    }
}

/// A text on one line.
pub open spec fn unbroken(s: Seq<char>) -> Seq<char> {
    s.filter(|c: char| c != '\n')
}

/// Typing leaves the cursor on a character, behind the one typed, and taking
/// that out again leaves the line as it was.
pub proof fn law_insert_erase(l: CmdLineView, c: char)
    requires
        l.can_edit(),
    ensures
        l.inserted(c).on_char(),
        !l.inserted(c).error,
        l.inserted(c).erased() == l.cleared(),
{
    let k0 = l.cleared();
    assert(k0.on_char()) by {
        if l.error {
            strings::lemma_char_at(k0.input, 0);
        }
    }
    strings::lemma_boundary(k0.input, k0.cursor);
    let k = strings::char_at(k0.input, k0.cursor);
    let t = k0.input.insert(k, c);
    assert(t.take(k) =~= k0.input.take(k));
    strings::lemma_byte_at_step(t, k);
    strings::lemma_char_at(t, k + 1);
    assert(t.remove(k) =~= k0.input);
    assert(l.inserted(c).erased() =~= l.cleared());
}

/// Taking a character out leaves the cursor on a character.
pub proof fn law_erase_on_char(l: CmdLineView)
    requires
        l.can_edit(),
    ensures
        l.erased().on_char(),
        !l.erased().error,
        l.erased().cursor >= 0,
{
    let c = l.cleared();
    if l.error {
        strings::lemma_char_at(c.input, 0);
    }
    if c.cursor > 0 {
        strings::lemma_boundary(c.input, c.cursor);
        let k = strings::char_at(c.input, c.cursor);
        assert(k > 0) by {
            if k == 0 {
                strings::lemma_char_at(c.input, 0);
            }
        }
        strings::lemma_byte_at_step(c.input, k - 1);
        let t = c.input.remove(k - 1);
        assert(t.take(k - 1) =~= c.input.take(k - 1));
        strings::lemma_char_at(t, k - 1);
    } else {
        strings::lemma_boundary(c.input, c.cursor);
    }
}

/// Moving keeps the cursor on a character.
pub proof fn law_move_on_char(l: CmdLineView)
    requires
        l.on_char(),
    ensures
        l.moved_left().on_char(),
        l.moved_right().on_char(),
        0 <= l.moved_left().cursor <= l.cursor,
        l.cursor <= l.moved_right().cursor <= strings::utf8_len(l.input),
{
    lemma_prev(l.input, l.cursor, l.input.len() as int);
    strings::lemma_char_at(l.input, 0);
    strings::lemma_boundary(l.input, l.cursor);
    if !l.at_end() {
        lemma_next(l.input, l.cursor);
    }
}

proof fn lemma_prev(s: Seq<char>, b: int, n: int)
    requires
        0 <= n <= s.len(),
    ensures
        strings::is_boundary(s, prev_from(s, b, n)),
        prev_from(s, b, n) == 0 || prev_from(s, b, n) < b,
        0 <= prev_from(s, b, n) <= strings::utf8_len(s),
    decreases n,
{
    strings::lemma_char_at(s, 0);
    if n > 0 {
        strings::lemma_char_at(s, n - 1);
        lemma_prev(s, b, n - 1);
    }
}

proof fn lemma_next(s: Seq<char>, b: int)
    requires
        strings::is_boundary(s, b),
        b != strings::utf8_len(s),
    ensures
        0 <= strings::char_at(s, b) < s.len(),
        strings::is_boundary(s, next_start(s, b)),
        strings::char_at(s, next_start(s, b)) == strings::char_at(s, b) + 1,
        b < next_start(s, b) <= strings::utf8_len(s),
        next_start(s, b) == strings::utf8_len(s) <==> strings::char_at(s, b) + 1 == s.len(),
{
    strings::lemma_boundary(s, b);
    let k = strings::char_at(s, b);
    strings::lemma_char_at(s, s.len() as int);
    assert(k < s.len());
    strings::lemma_byte_at_step(s, k);
    strings::lemma_char_at(s, k + 1);
    if k + 1 < s.len() {
        strings::lemma_byte_at_ordered(s, k + 1, s.len() as int);
    }
}

impl CmdLine {
    pub fn new() -> (res: Self)
        ensures
            res@ == CmdLineView::fresh(),
    {
        CmdLine {
            mode: Mode::Insert,
            selection: None,
            input: String::new(),
            cursor: 0,
            error: false,
            last_view: (LeafIdx(usize::MAX), ViewIdx(usize::MAX)),
        }
    }

    fn clear_error(&mut self)
        ensures
            final(self)@ == old(self)@.cleared(),
    {
        if self.error {
            self.cursor = 0;
            self.input = String::new();
            self.error = false;
        }
    }

    /// Types a character at the cursor.
    pub fn insert(&mut self, c: char)
        requires
            old(self)@.can_edit(),
        ensures
            final(self)@ == old(self)@.inserted(c),
            final(self)@.on_char(),
            !final(self)@.error,
    {
        let ghost before = self@;
        proof {
            law_insert_erase(before, c);
        }
        self.clear_error();
        proof {
            if before.error {
                strings::lemma_char_at(self@.input, 0);
            }
        }
        let byte_idx: usize = self.cursor;
        self.input.insert(byte_idx, c);
        let _len: usize = self.input.len();
        proof {
            strings::lemma_boundary(self.input@, byte_idx + strings::width(c));
        }
        self.cursor = self.cursor + c.len_utf8();
    }

    /// Takes out the character in front of the cursor.
    pub fn backspace(&mut self)
        requires
            old(self)@.can_edit(),
        ensures
            final(self)@ == old(self)@.erased(),
            final(self)@.on_char(),
            !final(self)@.error,
    {
        let ghost before = self@;
        proof {
            law_erase_on_char(before);
        }
        self.clear_error();
        if self.cursor > 0 {
            let chars: Vec<char> = strings::chars_of(self.input.as_str());
            let k: usize = strings::char_index(&self.input, self.cursor);
            proof {
                strings::lemma_boundary(self.input@, self.cursor as int);
                strings::lemma_char_at(self.input@, 0);
                strings::lemma_byte_at_step(self.input@, k - 1);
                strings::lemma_char_at(self.input@, k - 1);
            }
            let char_len: usize = chars[k - 1].len_utf8();
            self.cursor = self.cursor - char_len;
            self.input.remove(self.cursor);
        }
    }

    /// Shows a message in place of the line.
    pub fn error(&mut self, s: &str)
        ensures
            final(self)@ == old(self)@.with_error(s@),
    {
        self.error = true;
        self.input = s.to_string();
    }

    /// Where the cursor is on screen, and how it looks.
    pub fn cursor(&self, rect: &Rect) -> (res: (u16, u16, CursorStyle))
        requires
            rect.x + (self.cursor as u16) <= u16::MAX,
        ensures
            res == ((rect.x + (self.cursor as u16)) as u16, rect.y, style_of(self@.mode)),
    {
        let style: CursorStyle = match self.mode {
            Mode::Normal => CursorStyle::SteadyBlock,
            Mode::Visual => CursorStyle::SteadyUnderScore,
            Mode::Insert => CursorStyle::SteadyBar,
        };
        (rect.x + #[verifier::truncate] (self.cursor as u16), rect.y, style)
    }

    pub fn move_left(&mut self)
        ensures
            final(self)@ == old(self)@.moved_left(),
    {
        if self.cursor == 0 {
            return ;
        }
        let ghost s = self.input@;
        let ghost b = self.cursor as int;
        let total: usize = self.input.len();
        let chars: Vec<char> = strings::chars_of(self.input.as_str());
        let mut start: usize = 0;
        let mut prev: usize = 0;
        let mut k: usize = 0;
        proof {
            strings::lemma_char_at(s, 0);
        }
        while k < chars.len()
            invariant
                k <= chars@.len(),
                chars@ == s,
                s == self.input@,
                b == self.cursor,
                total == strings::utf8_len(s),
                start == strings::byte_at(s, k as int),
                prev == prev_from(s, b, k as int),
                start <= total,
                self@ == old(self)@,
                b != 0,
            decreases chars@.len() - k,
        {
            proof {
                strings::lemma_byte_at_step(s, k as int);
                strings::lemma_char_at(s, k + 1);
            }
            if start >= self.cursor {
                proof {
                    lemma_prev_settled(s, b, k as int, s.len() as int);
                }
                self.cursor = prev;
                return ;
            }
            prev = start;
            start = start + chars[k].len_utf8();
            k = k + 1;
        }
        self.cursor = prev;
    }

    /// The byte position behind the character at the cursor.
    fn next(&self) -> (end: usize)
        requires
            self@.on_char(),
            !self@.at_end(),
        ensures
            end == next_start(self@.input, self@.cursor),
    {
        proof {
            lemma_next(self.input@, self.cursor as int);
        }
        let _total: usize = self.input.len();
        let chars: Vec<char> = strings::chars_of(self.input.as_str());
        let k: usize = strings::char_index(&self.input, self.cursor);
        self.cursor + chars[k].len_utf8()
    }

    pub fn move_right(&mut self)
        requires
            old(self)@.at_end() || old(self)@.on_char(),
        ensures
            final(self)@ == old(self)@.moved_right(),
    {
        if self.cursor == self.input.len() {
            return ;
        }
        self.cursor = self.next();
    }

    pub fn move_selection_left(&mut self)
        ensures
            final(self)@ == old(self)@.selection_moved_left(),
    {
        self.move_left();
        match self.selection {
            Some(sel) => {
                if self.cursor > sel.0 {
                    self.selection = Some((sel.0, self.cursor));
                } else {
                    self.selection = Some((self.cursor, sel.1));
                }
            },
            None => {},
        }
    }

    pub fn move_selection_right(&mut self)
        requires
            old(self)@.at_end() || old(self)@.on_char(),
            old(self)@.can_stretch(),
        ensures
            final(self)@ == old(self)@.selection_moved_right(),
    {
        proof {
            if !self@.at_end() {
                lemma_next(self@.input, self@.cursor);
            }
        }
        self.move_right();
        match self.selection {
            Some(sel) => {
                if self.cursor >= sel.1 {
                    if self.cursor == self.input.len() {
                        return ;
                    }
                    let end: usize = self.next();
                    proof {
                        lemma_next(self@.input, self@.cursor);
                    }
                    if end == self.input.len() {
                        self.selection = Some((sel.0, end));
                    } else {
                        self.selection = Some((sel.0, sel.1 + (end - self.cursor)));
                    }
                } else {
                    self.selection = Some((self.cursor, sel.1));
                }
            },
            None => {},
        }
    }

    pub fn enter_visual(&mut self)
        requires
            old(self)@.at_end() || old(self)@.on_char(),
        ensures
            final(self)@ == old(self)@.in_visual(),
    {
        self.mode = Mode::Visual;
        let end: usize = if self.cursor == self.input.len() {
            self.cursor
        } else {
            self.next()
        };
        self.selection = Some((self.cursor, end));
    }

    pub fn enter_normal(&mut self)
        ensures
            final(self)@ == old(self)@.in_normal(),
    {
        self.selection = None;
        self.mode = Mode::Normal;
    }

    pub fn enter_insert(&mut self)
        ensures
            final(self)@ == old(self)@.in_insert(),
    {
        self.selection = None;
        self.mode = Mode::Insert;
    }

    /// Takes out what is selected, or the character in front of the cursor.
    pub fn delete(&mut self)
        requires
            old(self)@.can_delete(),
        ensures
            final(self)@ == old(self)@.deleted(),
    {
        match self.selection {
            Some(sel) => {
                self.cursor = sel.1;
                let ghost start = self@;
                let mut i: usize = sel.0;
                while i < sel.1
                    invariant
                        sel.0 <= i,
                        i <= sel.1 || i == sel.0,
                        self@.can_edit(),
                        self@ == start.erased_times((i - sel.0) as nat),
                    decreases sel.1 - i,
                {
                    self.backspace();
                    i = i + 1;
                }
                self.selection = None;
                self.mode = Mode::Normal;
            },
            None => self.backspace(),
        }
    }

    /// What is selected.
    pub fn selected(&self, sel: (usize, usize)) -> (s: String)
        requires
            self@.selection == Some(sel),
            self@.can_yank(),
        ensures
            s@ == self@.between(sel),
    {
        proof {
            strings::lemma_boundary(self.input@, sel.0 as int);
            strings::lemma_boundary(self.input@, sel.1 as int);
            let a = strings::char_at(self.input@, sel.0 as int);
            let b = strings::char_at(self.input@, sel.1 as int);
            if a > b {
                strings::lemma_byte_at_ordered(self.input@, b, a);
            }
        }
        let a: usize = strings::char_index(&self.input, sel.0);
        let b: usize = strings::char_index(&self.input, sel.1);
        let chars: Vec<char> = strings::chars_of(self.input.as_str());
        strings::string_of(&chars, a, b)
    }

    /// Types every character of a text.
    pub fn insert_all(&mut self, s: &str)
        requires
            s@.len() > 0 ==> old(self)@.can_edit(),
        ensures
            final(self)@ == old(self)@.inserted_all(s@),
            old(self)@.on_char() ==> final(self)@.on_char(),
    {
        let chars: Vec<char> = strings::chars_of(s);
        let mut i: usize = 0;
        while i < chars.len()
            invariant
                i <= chars@.len(),
                chars@ == s@,
                s@.len() > 0 ==> self@.can_edit(),
                old(self)@.on_char() ==> self@.on_char(),
                self@ == old(self)@.inserted_all(s@.take(i as int)),
            decreases chars@.len() - i,
        {
            proof {
                assert(s@.take(i + 1).drop_last() =~= s@.take(i as int));
                assert(s@.take(i + 1).last() == s@[i as int]);
            }
            self.insert(chars[i]);
            i = i + 1;
        }
        assert(s@.take(i as int) =~= s@);
    }

    /// Types a text from outside, without its line feeds.
    pub fn paste(&mut self, s: &str)
        requires
            unbroken(s@).len() > 0 ==> old(self)@.can_edit(),
        ensures
            final(self)@ == old(self)@.inserted_all(unbroken(s@)),
    {
        let line: String = join_lines(s);
        self.insert_all(line.as_str());
    }
}

pub(crate) fn join_lines(s: &str) -> (res: String)
    ensures
        res@ == unbroken(s@),
{
    let chars: Vec<char> = strings::chars_of(s);
    let mut res: String = String::new();
    let mut i: usize = 0;
    assert(unbroken(s@.take(0)) =~= Seq::<char>::empty()) by {
        reveal(Seq::filter);
    }
    while i < chars.len()
        invariant
            i <= chars@.len(),
            chars@ == s@,
            res@ == unbroken(s@.take(i as int)),
        decreases chars@.len() - i,
    {
        proof {
            reveal(Seq::filter);
            assert(s@.take(i + 1).drop_last() =~= s@.take(i as int));
            assert(s@.take(i + 1).last() == s@[i as int]);
        }
        if chars[i] != '\n' {
            res.push(chars[i]);
        }
        i = i + 1;
    }
    assert(s@.take(i as int) =~= s@);
    res
}

pub proof fn lemma_prev_settled(s: Seq<char>, b: int, k: int, n: int)
    requires
        0 <= k <= n <= s.len(),
        k < s.len(),
        strings::byte_at(s, k) >= b,
    ensures
        prev_from(s, b, n) == prev_from(s, b, k),
    decreases n,
{
    if k < n {
        strings::lemma_byte_at_ordered(s, k, n - 1);
        lemma_prev_settled(s, b, k, n - 1);
    }
}

impl CmdLine {
    /// Whether the cursor stands between two characters or at an end.
    pub fn is_on_char(&self) -> (res: bool)
        ensures
            res == self@.on_char(),
    {
        strings::on_boundary(&self.input, self.cursor)
    }

    pub fn is_at_end(&self) -> (res: bool)
        ensures
            res == self@.at_end(),
    {
        self.cursor == self.input.len()
    }

    /// Whether the line can be typed in.
    pub fn may_edit(&self) -> (res: bool)
        ensures
            res == self@.can_edit(),
    {
        self.error || self.is_on_char()
    }

    /// Whether what is selected, or the character in front of the cursor, can
    /// be taken out.
    pub fn may_delete(&self) -> (res: bool)
        ensures
            res == self@.can_delete(),
    {
        match self.selection {
            Some(sel) => self.error || strings::on_boundary(&self.input, sel.1),
            None => self.may_edit(),
        }
    }

    /// Whether what is selected can be told.
    pub fn may_yank(&self) -> (res: bool)
        ensures
            res == self@.can_yank(),
    {
        match self.selection {
            Some(sel) => sel.0 <= sel.1 && strings::on_boundary(&self.input, sel.0)
                && strings::on_boundary(&self.input, sel.1),
            None => true,
        }
    }

    /// Another line with the same content.
    pub fn copy(&self) -> (res: CmdLine)
        ensures
            res@ == self@,
    {
        CmdLine {
            mode: self.mode,
            input: self.input.clone(),
            cursor: self.cursor,
            error: self.error,
            selection: self.selection,
            last_view: self.last_view,
        }
    }

    /// Whether the selection can be stretched to the right.
    pub fn may_stretch(&self) -> (res: bool)
        requires
            self@.at_end() || self@.on_char(),
        ensures
            res == self@.can_stretch(),
    {
        proof {
            if !self@.at_end() {
                lemma_next(self@.input, self@.cursor);
            }
        }
        let mut l: CmdLine = self.copy();
        l.move_right();
        match l.selection {
            Some(sel) => {
                if l.cursor < sel.1 || l.is_at_end() {
                    return true;
                }
                let next: usize = l.next();
                proof {
                    lemma_next(l@.input, l@.cursor);
                }
                let total: usize = l.input.len();
                next == total || next - l.cursor <= usize::MAX - sel.1
            },
            None => true,
        }
    }
}

} // verus!
