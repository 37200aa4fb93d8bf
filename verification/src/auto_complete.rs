//! The completion list above the command line.
use vstd::prelude::*;
use vstd::string::*;
use crate::buffers::Buffers;
use crate::cmd_line::{CmdLine, CmdLineView};
use crate::commands;
use crate::commands::{ArgKind, CmdSpec, CmdSpecView};
use crate::divide;
use crate::motion;
use crate::strings;

verus! {

pub struct AutoComplete {
    pub selected: Option<usize>,
    pub filtered: Vec<String>,
    pub progress: Option<CmdSpec>,
}

#[verifier::ext_equal]
pub struct AutoCompleteView {
    pub selected: Option<usize>,
    pub filtered: Seq<Seq<char>>,
    pub progress: Option<CmdSpecView>,
}

pub open spec fn option_spec(c: Option<CmdSpec>) -> Option<CmdSpecView> {
    match c {
        Some(c) => Some(c@),
        None => None,
    }
}

impl View for AutoComplete {
    type V = AutoCompleteView;

    open spec fn view(&self) -> AutoCompleteView {
        AutoCompleteView {
            selected: self.selected,
            filtered: strings::texts(self.filtered@),
            progress: option_spec(self.progress),
        }
    }
}

/// What has to be listed from the current directory for a line to be
/// completed.
#[derive(Clone, Copy, PartialEq, Eq, Structural)]
pub enum Listing {
    Nothing,
    Directories,
    Files,
}

pub open spec fn starts_with(s: Seq<char>, p: Seq<char>) -> bool {
    p.len() <= s.len() && s.take(p.len() as int) == p
}

/// The texts of a list that start with a given one.
pub open spec fn starting(list: Seq<Seq<char>>, p: Seq<char>) -> Seq<Seq<char>> {
    list.filter(|s: Seq<char>| starts_with(s, p))
}

pub open spec fn command_names() -> Seq<Seq<char>> {
    commands::registry().map_values(|c: CmdSpecView| c.name)
}

/// The first word of a line, without the mark that forces a command.
pub open spec fn first_word(input: Seq<char>) -> Option<Seq<char>> {
    if strings::words(input).len() > 0 {
        Some(commands::unforced(strings::words(input)[0]))
    } else {
        None
    }
}

pub open spec fn second_word(input: Seq<char>) -> Option<Seq<char>> {
    if strings::words(input).len() > 1 {
        Some(strings::words(input)[1])
    } else {
        None
    }
}

/// The command that a line has got to.
pub open spec fn progress_of(input: Seq<char>) -> Option<CmdSpecView> {
    match first_word(input) {
        Some(w) => commands::lookup(w),
        None => None,
    }
}

pub open spec fn listing_of(input: Seq<char>) -> Listing {
    match progress_of(input) {
        Some(c) => match c.arg {
            Some(a) => match a.kind {
                ArgKind::DirectoryPath => Listing::Directories,
                ArgKind::FilePath => Listing::Files,
                ArgKind::BufferIndex => Listing::Nothing,
            },
            None => Listing::Nothing,
        },
        None => Listing::Nothing,
    }
}

/// A list of names, last one first, as far as they start with the second word.
pub open spec fn narrowed(input: Seq<char>, names: Seq<Seq<char>>) -> Seq<Seq<char>> {
    match second_word(input) {
        Some(w) => starting(names.reverse(), w),
        None => names.reverse(),
    }
}

/// What a line can be completed to: the names of commands, or the arguments
/// of the command it has got to; nothing where that takes no argument or
/// where the names could not be listed.
pub open spec fn completions(
    input: Seq<char>,
    buffers: int,
    listed: Option<Seq<Seq<char>>>,
) -> Option<Seq<Seq<char>>> {
    match progress_of(input) {
        None => Some(
            match first_word(input) {
                Some(w) => starting(command_names(), w),
                None => command_names(),
            },
        ),
        Some(c) => match c.arg {
            None => None,
            Some(a) => match a.kind {
                ArgKind::BufferIndex => Some(
                    Seq::new(buffers as nat, |i: int| strings::decimal(i as nat)),
                ),
                _ => match listed {
                    Some(names) => Some(narrowed(input, names)),
                    None => None,
                },
            },
        },
    }
}

pub open spec fn listed_texts(listed: Option<Vec<String>>) -> Option<Seq<Seq<char>>> {
    match listed {
        Some(v) => Some(strings::texts(v@)),
        None => None,
    }
}

/// How many characters stand behind the last space.
pub open spec fn tail_len(s: Seq<char>) -> nat
    decreases s.len(),
{
    if s.len() == 0 || s.last() == ' ' {
        0
    } else {
        tail_len(s.drop_last()) + 1
    }
}

/// A place that is in the list.
pub open spec fn if_listed(selected: int, len: int) -> Option<usize> {
    if selected < len {
        Some(selected as usize)
    } else {
        None
    }
}

impl AutoCompleteView {
    pub open spec fn empty() -> AutoCompleteView {
        AutoCompleteView { selected: None, filtered: Seq::empty(), progress: None }
    }

    pub open spec fn refreshed(
        self,
        input: Seq<char>,
        buffers: int,
        listed: Option<Seq<Seq<char>>>,
    ) -> AutoCompleteView {
        match completions(input, buffers, listed) {
            Some(filtered) => AutoCompleteView {
                filtered,
                progress: progress_of(input),
                ..self
            },
            None => self,
        }
    }

    pub open spec fn last(self) -> int {
        divide::monus(self.filtered.len() as int, 1)
    }

    pub open spec fn with_selected(self, selected: Option<usize>) -> AutoCompleteView {
        AutoCompleteView { selected, ..self }
    }

    pub open spec fn at_prev(self) -> AutoCompleteView {
        let s = match self.selected {
            Some(s) => divide::monus(s as int, 1),
            None => self.last(),
        };
        self.with_selected(if_listed(s, self.filtered.len() as int))
    }

    pub open spec fn at_next(self) -> AutoCompleteView {
        let s = match self.selected {
            Some(s) => motion::least(s + 1, self.last()),
            None => 0,
        };
        self.with_selected(if_listed(s, self.filtered.len() as int))
    }

    /// One column on, where a column holds one entry less than the list is
    /// high.
    pub open spec fn at_next_col(self, height: int) -> AutoCompleteView {
        match self.selected {
            Some(s) => self.with_selected(
                Some(motion::least(s + height - 1, self.last()) as usize),
            ),
            None => self.with_selected(
                if_listed(motion::least(height - 1, self.last()), self.filtered.len() as int),
            ),
        }
    }

    pub open spec fn at_prev_col(self, height: int) -> AutoCompleteView {
        let s = match self.selected {
            Some(s) => motion::least(divide::monus(s as int, height - 1), self.last()),
            None => 0,
        };
        self.with_selected(if_listed(s, self.filtered.len() as int))
    }

    pub open spec fn can_step(self) -> bool {
        self.selected matches Some(s) ==> s < usize::MAX
    }

    pub open spec fn can_step_col(self, height: int) -> bool {
        match self.selected {
            Some(s) => 1 <= s + height <= usize::MAX && self.filtered.len() > 0,
            None => height >= 1,
        }
    }

    /// The line with the characters behind its last space before the cursor
    /// replaced by the selected entry.
    pub open spec fn completed(self, l: CmdLineView) -> CmdLineView {
        let word = tail_len(l.input.take(strings::char_at(l.input, l.cursor)));
        let bare = l.erased_times(word);
        match self.selected {
            Some(s) => bare.inserted_all(self.filtered[s as int]),
            None => bare,
        }
    }
}

fn has_prefix(s: &str, p: &str) -> (res: bool)
    ensures
        res == starts_with(s@, p@),
{
    let n: usize = p.unicode_len();
    if n > s.unicode_len() {
        return false;
    }
    commands::same(s.substring_char(0, n), p)
}

fn keep_starting(list: &Vec<String>, p: &str) -> (res: Vec<String>)
    ensures
        strings::texts(res@) == starting(strings::texts(list@), p@),
{
    let ghost all = strings::texts(list@);
    let mut res: Vec<String> = Vec::new();
    let mut i: usize = 0;
    assert(starting(all.take(0), p@) =~= Seq::<Seq<char>>::empty()) by {
        reveal(Seq::filter);
    }
    assert(strings::texts(res@) =~= Seq::<Seq<char>>::empty());
    while i < list.len()
        invariant
            i <= list@.len(),
            all == strings::texts(list@),
            strings::texts(res@) == starting(all.take(i as int), p@),
        decreases list@.len() - i,
    {
        let ghost before = res@;
        proof {
            reveal(Seq::filter);
            assert(all.take(i + 1).drop_last() =~= all.take(i as int));
            assert(all.take(i + 1).last() == list@[i as int]@);
        }
        if has_prefix(list[i].as_str(), p) {
            let s: String = list[i].clone();
            res.push(s);
            assert(strings::texts(res@) =~= strings::texts(before).push(list@[i as int]@));
        }
        i = i + 1;
    }
    assert(all.take(i as int) =~= all);
    res
}

fn reversed(list: &Vec<String>) -> (res: Vec<String>)
    ensures
        strings::texts(res@) == strings::texts(list@).reverse(),
{
    let mut res: Vec<String> = Vec::new();
    let mut i: usize = list.len();
    while i > 0
        invariant
            i <= list@.len(),
            res@.len() == list@.len() - i,
            forall|k: int|
                0 <= k < res@.len() ==> (#[trigger] res@[k])@ == list@[list@.len() - 1 - k]@,
        decreases i,
    {
        i = i - 1;
        let s: String = list[i].clone();
        res.push(s);
    }
    assert(strings::texts(res@) =~= strings::texts(list@).reverse());
    res
}

fn all_names() -> (res: Vec<String>)
    ensures
        strings::texts(res@) == command_names(),
{
    let specs: Vec<CmdSpec> = commands::command_registery();
    let mut res: Vec<String> = Vec::new();
    let mut i: usize = 0;
    assert(specs@.len() == commands::registry().len());
    while i < specs.len()
        invariant
            i <= specs@.len(),
            specs@.len() == commands::registry().len(),
            commands::spec_views(specs@) == commands::registry(),
            res@.len() == i,
            forall|k: int| 0 <= k < i ==> (#[trigger] res@[k])@ == commands::registry()[k].name,
        decreases specs@.len() - i,
    {
        assert(commands::registry()[i as int] == specs@[i as int]@);
        res.push(specs[i].name.to_string());
        i = i + 1;
    }
    assert(strings::texts(res@) =~= command_names());
    res
}

fn numbers_below(n: usize) -> (res: Vec<String>)
    ensures
        strings::texts(res@) == Seq::new(n as nat, |i: int| strings::decimal(i as nat)),
{
    let mut res: Vec<String> = Vec::new();
    let mut i: usize = 0;
    while i < n
        invariant
            i <= n,
            res@.len() == i,
            forall|k: int| 0 <= k < i ==> (#[trigger] res@[k])@ == strings::decimal(k as nat),
        decreases n - i,
    {
        res.push(strings::to_decimal(i));
        i = i + 1;
    }
    assert(strings::texts(res@) =~= Seq::new(n as nat, |i: int| strings::decimal(i as nat)));
    res
}

/// The first two words of a line, the first without the mark that forces a
/// command.
fn leading_words(input: &str) -> (res: (Option<String>, Option<String>))
    ensures
        strings::option_text(res.0) == first_word(input@),
        strings::option_text(res.1) == second_word(input@),
{
    let parts: Vec<String> = strings::split_words(input);
    let ghost words = strings::words(input@);
    assert(parts@.len() == words.len());
    let first: Option<String> = if parts.len() > 0 {
        assert(parts@[0]@ == words[0]);
        let (word, _) = commands::drop_force(parts[0].as_str());
        Some(word)
    } else {
        None
    };
    let second: Option<String> = if parts.len() > 1 {
        assert(parts@[1]@ == words[1]);
        Some(parts[1].clone())
    } else {
        None
    };
    (first, second)
}

fn find_progress(first: &Option<String>) -> (res: Option<CmdSpec>)
    ensures
        option_spec(res) == (match strings::option_text(*first) {
            Some(w) => commands::lookup(w),
            None => None,
        }),
{
    match first {
        Some(w) => commands::find_command(w.as_str()),
        None => None,
    }
}

/// What has to be listed before a line can be completed.
pub fn wanted_listing(input: &str) -> (res: Listing)
    ensures
        res == listing_of(input@),
{
    let (first, _) = leading_words(input);
    match find_progress(&first) {
        Some(c) => match c.arg {
            Some(a) => match a.kind {
                ArgKind::DirectoryPath => Listing::Directories,
                ArgKind::FilePath => Listing::Files,
                ArgKind::BufferIndex => Listing::Nothing,
            },
            None => Listing::Nothing,
        },
        None => Listing::Nothing,
    }
}

impl AutoComplete {
    /// Finds out anew what the line can be completed to. `listed` holds the
    /// names that the current directory was listed for.
    pub fn refresh_filtered_and_progress(
        &mut self,
        cmd_line: &CmdLine,
        buffers: &Buffers,
        listed: &Option<Vec<String>>,
    ) -> (res: Result<(), ()>)
        ensures
            final(self)@ == old(self)@.refreshed(
                cmd_line@.input,
                buffers@.data.len() as int,
                listed_texts(*listed),
            ),
            res is Ok == completions(
                cmd_line@.input,
                buffers@.data.len() as int,
                listed_texts(*listed),
            ) is Some,
    {
        let (first, second) = leading_words(cmd_line.input.as_str());
        let progress: Option<CmdSpec> = find_progress(&first);
        let filtered: Vec<String> = match progress {
            None => match &first {
                Some(p) => {
                    let names: Vec<String> = all_names();
                    keep_starting(&names, p.as_str())
                },
                None => all_names(),
            },
            Some(c) => match c.arg {
                None => {
                    return Err(());
                },
                Some(a) => {
                    if a.kind == ArgKind::BufferIndex {
                        numbers_below(buffers.data.len())
                    } else {
                        match listed {
                            None => {
                                return Err(());
                            },
                            Some(names) => {
                                let names: Vec<String> = reversed(names);
                                match &second {
                                    Some(s) => keep_starting(&names, s.as_str()),
                                    None => names,
                                }
                            },
                        }
                    }
                },
            },
        };
        self.filtered = filtered;
        self.progress = progress;
        Ok(())
    }

    /// The completion list for a line, if there is anything to complete.
    pub fn new(cmd_line: &CmdLine, buffers: &Buffers, listed: &Option<Vec<String>>) -> (res: Option<
        AutoComplete,
    >)
        ensures
            match completions(
                cmd_line@.input,
                buffers@.data.len() as int,
                listed_texts(*listed),
            ) {
                Some(filtered) => res matches Some(ac) && ac@ == AutoCompleteView::empty().refreshed(
                    cmd_line@.input,
                    buffers@.data.len() as int,
                    listed_texts(*listed),
                ),
                None => res is None,
            },
    {
        let mut ac: AutoComplete = AutoComplete {
            selected: None,
            progress: None,
            filtered: Vec::new(),
        };
        assert(ac@ =~= AutoCompleteView::empty());
        match ac.refresh_filtered_and_progress(cmd_line, buffers, listed) {
            Ok(()) => Some(ac),
            Err(()) => None,
        }
    }

    pub fn select_prev(&mut self)
        ensures
            final(self)@ == old(self)@.at_prev(),
    {
        let s: usize = match self.selected {
            Some(s) => s.saturating_sub(1),
            None => self.filtered.len().saturating_sub(1),
        };
        self.select_if_listed(s);
    }

    fn select_if_listed(&mut self, s: usize)
        ensures
            final(self)@ == old(self)@.with_selected(
                if_listed(s as int, old(self)@.filtered.len() as int),
            ),
    {
        self.selected = if s < self.filtered.len() {
            Some(s)
        } else {
            None
        };
    }

    pub fn select_next(&mut self)
        requires
            old(self)@.can_step(),
        ensures
            final(self)@ == old(self)@.at_next(),
    {
        let last: usize = self.filtered.len().saturating_sub(1);
        let s: usize = match self.selected {
            Some(s) => if s + 1 <= last {
                s + 1
            } else {
                last
            },
            None => 0,
        };
        self.select_if_listed(s);
    }

    pub fn select_next_col(&mut self, height: u16)
        requires
            old(self)@.can_step_col(height as int),
        ensures
            final(self)@ == old(self)@.at_next_col(height as int),
    {
        let last: usize = self.filtered.len().saturating_sub(1);
        match self.selected {
            Some(s) => {
                let to: usize = s + height as usize - 1;
                self.selected = Some(
                    if to <= last {
                        to
                    } else {
                        last
                    },
                );
            },
            None => {
                let to: usize = height as usize - 1;
                self.select_if_listed(
                    if to <= last {
                        to
                    } else {
                        last
                    },
                );
            },
        }
    }

    pub fn select_prev_col(&mut self, height: u16)
        requires
            old(self)@.selected is Some ==> height >= 1,
        ensures
            final(self)@ == old(self)@.at_prev_col(height as int),
    {
        let last: usize = self.filtered.len().saturating_sub(1);
        let s: usize = match self.selected {
            Some(s) => {
                let to: usize = s.saturating_sub(height as usize - 1);
                if to <= last {
                    to
                } else {
                    last
                }
            },
            None => 0,
        };
        self.select_if_listed(s);
    }

    /// Writes the selected entry over the word in front of the cursor.
    pub fn complete(&self, cmd_line: &mut CmdLine)
        requires
            old(cmd_line)@.on_char(),
            self@.selected matches Some(s) ==> s < self@.filtered.len(),
        ensures
            final(cmd_line)@ == self@.completed(old(cmd_line)@),
            final(cmd_line)@.on_char(),
    {
        let ghost l = cmd_line@;
        let chars: Vec<char> = strings::chars_of(cmd_line.input.as_str());
        let at: usize = strings::char_index(&cmd_line.input, cmd_line.cursor);
        let ghost head = l.input.take(at as int);
        let mut start: usize = at;
        assert(l.input.take(at as int) =~= head);
        while start > 0 && chars[start - 1] != ' '
            invariant
                start <= at <= chars@.len(),
                chars@ == l.input,
                head == l.input.take(at as int),
                tail_len(head) == tail_len(l.input.take(start as int)) + (at - start),
            decreases start,
        {
            proof {
                let now = l.input.take(start as int);
                assert(now.drop_last() =~= l.input.take(start - 1));
                assert(now.last() == chars@[start - 1]);
            }
            start = start - 1;
        }
        proof {
            let now = l.input.take(start as int);
            if start > 0 {
                assert(now.last() == chars@[start - 1]);
            }
            assert(tail_len(now) == 0);
        }
        let mut i: usize = start;
        while i < at
            invariant
                start <= i <= at,
                cmd_line@.on_char(),
                cmd_line@ == l.erased_times((i - start) as nat),
            decreases at - i,
        {
            cmd_line.backspace();
            i = i + 1;
        }
        match self.selected {
            Some(s) => {
                assert(self@.filtered[s as int] == self.filtered@[s as int]@);
                cmd_line.insert_all(self.filtered[s].as_str());
            },
            None => {},
        }
    }
}

// ---- what completing does

/// Taking characters out in front of the cursor, as long as there are any.
pub proof fn lemma_erased_run(l: CmdLineView, k: int, n: nat)
    requires
        !l.error,
        0 <= n <= k <= l.input.len(),
        l.cursor == strings::byte_at(l.input, k),
    ensures
        ({
            let e = l.erased_times(n);
            &&& e.input == l.input.take(k - n) + l.input.skip(k)
            &&& e.cursor == strings::byte_at(e.input, k - n)
            &&& !e.error
        }),
    decreases n,
{
    if n == 0 {
        assert(l.input.take(k) + l.input.skip(k) =~= l.input);
    } else {
        lemma_erased_run(l, k, (n - 1) as nat);
        let e = l.erased_times((n - 1) as nat);
        let j = k - n + 1;
        strings::lemma_char_at(e.input, j);
        strings::lemma_byte_at_step(e.input, j - 1);
        strings::lemma_byte_at_ordered(e.input, 0, j - 1);
        strings::lemma_byte_at_step(e.input, 0);
        let t = e.input.remove(j - 1);
        assert(t =~= l.input.take(k - n) + l.input.skip(k));
        assert(t.take(j - 1) =~= e.input.take(j - 1));
    }
}

/// Typing a text puts it in at the cursor.
pub proof fn lemma_inserted_run(l: CmdLineView, k: int, s: Seq<char>)
    requires
        !l.error,
        0 <= k <= l.input.len(),
        l.cursor == strings::byte_at(l.input, k),
    ensures
        ({
            let e = l.inserted_all(s);
            &&& e.input == l.input.take(k) + s + l.input.skip(k)
            &&& e.cursor == strings::byte_at(e.input, k + s.len())
            &&& !e.error
        }),
    decreases s.len(),
{
    if s.len() == 0 {
        assert(l.input.take(k) + s + l.input.skip(k) =~= l.input);
    } else {
        lemma_inserted_run(l, k, s.drop_last());
        let e = l.inserted_all(s.drop_last());
        let j = k + s.len() - 1;
        strings::lemma_char_at(e.input, j);
        let t = e.input.insert(j, s.last());
        assert(t =~= l.input.take(k) + s + l.input.skip(k));
        assert(t.take(j) =~= e.input.take(j));
        strings::lemma_byte_at_step(t, j);
    }
}

pub proof fn lemma_tail_bound(s: Seq<char>)
    ensures
        tail_len(s) <= s.len(),
    decreases s.len(),
{
    if s.len() > 0 {
        lemma_tail_bound(s.drop_last());
    }
}

impl AutoCompleteView {
    /// The entry that is chosen, if one is.
    pub open spec fn chosen(self) -> Seq<char> {
        match self.selected {
            Some(s) => self.filtered[s as int],
            None => Seq::empty(),
        }
    }
}

/// Completing replaces the word in front of the cursor by the chosen entry,
/// leaves the rest of the line as it is, and puts the cursor behind the entry.
pub proof fn law_completed(ac: AutoCompleteView, l: CmdLineView)
    requires
        l.on_char(),
        !l.error,
    ensures
        ({
            let k = strings::char_at(l.input, l.cursor);
            let start = k - tail_len(l.input.take(k));
            let c = ac.completed(l);
            &&& 0 <= start <= k
            &&& c.input == l.input.take(start) + ac.chosen() + l.input.skip(k)
            &&& c.cursor == strings::byte_at(c.input, start + ac.chosen().len())
        }),
{
    strings::lemma_boundary(l.input, l.cursor);
    let k = strings::char_at(l.input, l.cursor);
    lemma_tail_bound(l.input.take(k));
    let n = tail_len(l.input.take(k));
    lemma_erased_run(l, k, n);
    let bare = l.erased_times(n);
    lemma_inserted_run(bare, k - n, ac.chosen());
    assert(bare.input.take(k - n) =~= l.input.take(k - n));
    assert(bare.input.skip(k - n) =~= l.input.skip(k));
    if ac.selected is None {
        assert(bare.input =~= l.input.take(k - n) + ac.chosen() + l.input.skip(k));
    }
}

} // verus!
