//! Texts and their lines, kept in a rope.
//!
//! A line ends behind a line break: LF, VT, FF, CR, NEL, the line separator
//! U+2028, the paragraph separator U+2029, or CR and LF together.
use vstd::prelude::*;
use ropey::Rope;

verus! {

// ---- lines of a text

pub open spec fn is_break(c: char) -> bool {
    ||| '\u{A}' <= c <= '\u{D}'
    ||| c == '\u{85}'
    ||| c == '\u{2028}'
    ||| c == '\u{2029}'
}

/// Whether a character is a line break.
pub fn ends_line(c: char) -> (res: bool)
    ensures
        res == is_break(c),
{
    ('\u{A}' <= c && c <= '\u{D}') || c == '\u{85}' || c == '\u{2028}' || c == '\u{2029}'
}

/// A line starts at the start of the text and behind every line break.
pub open spec fn starts_line(s: Seq<char>, i: int) -> bool {
    i == 0 || {
        &&& 0 < i <= s.len()
        &&& is_break(s[i - 1])
        &&& !(s[i - 1] == '\r' && i < s.len() && s[i] == '\n')
    }
}

/// The number of the line that holds position `i`: how many lines start
/// behind the first one and not behind `i`.
pub open spec fn line_of(s: Seq<char>, i: int) -> int
    decreases i,
{
    if i <= 0 {
        0
    } else if starts_line(s, i) {
        line_of(s, i - 1) + 1
    } else {
        line_of(s, i - 1)
    }
}

/// A text that ends with a line break has an empty last line.
pub open spec fn line_count(s: Seq<char>) -> int {
    line_of(s, s.len() as int) + 1
}

/// Where line `k` starts. Behind the last line it is the end of the text.
pub open spec fn line_start(s: Seq<char>, k: int) -> int {
    if k >= line_count(s) {
        s.len() as int
    } else {
        choose|i: int| 0 <= i <= s.len() && starts_line(s, i) && line_of(s, i) == k
    }
}

/// Line `k` with its line break.
pub open spec fn line_text(s: Seq<char>, k: int) -> Seq<char> {
    s.subrange(line_start(s, k), line_start(s, k + 1))
}

pub open spec fn line_len(s: Seq<char>, k: int) -> int {
    line_start(s, k + 1) - line_start(s, k)
}

pub proof fn lemma_line_of_monotonic(s: Seq<char>, i: int, j: int)
    requires
        0 <= i <= j,
    ensures
        0 <= line_of(s, i) <= line_of(s, j),
        line_of(s, j) - line_of(s, i) <= j - i,
    decreases j,
{
    if i == 0 && j == 0 {
    } else if i == j {
        lemma_line_of_monotonic(s, i - 1, j - 1);
    } else {
        lemma_line_of_monotonic(s, i, j - 1);
    }
}

proof fn lemma_line_starts(s: Seq<char>, k: int, n: int)
    requires
        0 <= k <= line_of(s, n),
        0 <= n <= s.len(),
    ensures
        exists|i: int| 0 <= i <= n && starts_line(s, i) && line_of(s, i) == k,
    decreases n,
{
    if n == 0 {
        assert(starts_line(s, 0) && line_of(s, 0) == k);
    } else if line_of(s, n - 1) < k {
        assert(starts_line(s, n) && line_of(s, n) == k);
    } else {
        lemma_line_starts(s, k, n - 1);
        let i = choose|i: int| 0 <= i <= n - 1 && starts_line(s, i) && line_of(s, i) == k;
        assert(0 <= i <= n && starts_line(s, i) && line_of(s, i) == k);
    }
}

/// Every line has its start.
pub proof fn lemma_line_start(s: Seq<char>, k: int)
    requires
        0 <= k,
    ensures
        0 <= line_start(s, k) <= s.len(),
        k < line_count(s) ==> {
            &&& starts_line(s, line_start(s, k))
            &&& line_of(s, line_start(s, k)) == k
        },
{
    if k < line_count(s) {
        lemma_line_starts(s, k, s.len() as int);
    }
}

/// A position lies in its line: not before the line's start, and before the
/// start of the next one.
pub proof fn lemma_line_holds(s: Seq<char>, i: int, k: int)
    requires
        0 <= i <= s.len(),
        0 <= k < line_count(s),
    ensures
        line_start(s, k) <= i <==> k <= line_of(s, i),
{
    lemma_line_start(s, k);
    let st = line_start(s, k);
    if st <= i {
        lemma_line_of_monotonic(s, st, i);
    } else {
        lemma_line_of_monotonic(s, i, st - 1);
        lemma_line_of_monotonic(s, 0, st - 1);
    }
}

/// Lines follow one another.
pub proof fn lemma_line_starts_ordered(s: Seq<char>, j: int, k: int)
    requires
        0 <= j <= k,
    ensures
        0 <= line_start(s, j) <= line_start(s, k) <= s.len(),
{
    lemma_line_start(s, j);
    lemma_line_start(s, k);
    if k < line_count(s) {
        lemma_line_holds(s, line_start(s, k), j);
    }
}

/// What a line break is counted for: the line of a position, and its start.
pub proof fn lemma_line_at(s: Seq<char>, i: int)
    requires
        0 <= i <= s.len(),
    ensures
        0 <= line_of(s, i) < line_count(s),
        0 <= line_start(s, line_of(s, i)) <= i <= line_start(s, line_of(s, i) + 1) <= s.len(),
        line_of(s, i) + 1 < line_count(s) ==> i < line_start(s, line_of(s, i) + 1),
        line_of(s, i) <= i,
{
    lemma_line_of_monotonic(s, i, s.len() as int);
    lemma_line_of_monotonic(s, 0, i);
    let k = line_of(s, i);
    lemma_line_holds(s, i, k);
    lemma_line_start(s, k);
    lemma_line_start(s, k + 1);
    if k + 1 < line_count(s) {
        lemma_line_holds(s, i, k + 1);
    }
}

/// The first line is where the text starts.
pub proof fn lemma_first_line(s: Seq<char>)
    ensures
        line_count(s) >= 1,
        line_start(s, 0) == 0,
{
    lemma_line_at(s, 0);
}

// ---- ropes

#[verifier::external_type_specification]
#[verifier::external_body]
pub struct ExRope(ropey::Rope);

/// What a rope holds.
pub uninterp spec fn rope_text(r: Rope) -> Seq<char>;

/// `ropey::Rope::new`: the empty text.
#[verifier::external_body]
pub(crate) fn rope_new() -> (r: Rope)
    ensures
        rope_text(r) == Seq::<char>::empty(),
{
    Rope::new()
}

/// `ropey::Rope::from_str`: a rope that holds the given text.
#[verifier::external_body]
pub(crate) fn rope_from_str(s: &str) -> (r: Rope)
    ensures
        rope_text(r) == s@,
{
    Rope::from_str(s)
}

/// `ropey::Rope::len_chars`: the number of characters.
#[verifier::external_body]
pub(crate) fn rope_len_chars(r: &Rope) -> (n: usize)
    ensures
        n == rope_text(*r).len(),
{
    r.len_chars()
}

/// `ropey::Rope::len_lines`: the number of lines.
#[verifier::external_body]
pub(crate) fn rope_len_lines(r: &Rope) -> (n: usize)
    ensures
        n == line_count(rope_text(*r)),
{
    r.len_lines()
}

/// `ropey::Rope::insert_char`: the character goes in before position `at`. It
/// panics behind the end.
#[verifier::external_body]
pub(crate) fn rope_insert_char(r: &mut Rope, at: usize, c: char)
    requires
        at <= rope_text(*old(r)).len(),
    ensures
        rope_text(*final(r)) == rope_text(*old(r)).insert(at as int, c),
{
    r.insert_char(at, c)
}

/// `ropey::Rope::insert`: the text goes in before position `at`. It panics
/// behind the end.
#[verifier::external_body]
pub(crate) fn rope_insert(r: &mut Rope, at: usize, s: &str)
    requires
        at <= rope_text(*old(r)).len(),
    ensures
        rope_text(*final(r)) == rope_text(*old(r)).take(at as int) + s@ + rope_text(*old(r)).skip(
            at as int,
        ),
{
    r.insert(at, s)
}

/// `ropey::Rope::remove`: the characters from `start` up to `end` go out. It
/// panics where that is not a range of the text.
#[verifier::external_body]
pub(crate) fn rope_remove(r: &mut Rope, start: usize, end: usize)
    requires
        start <= end <= rope_text(*old(r)).len(),
    ensures
        rope_text(*final(r)) == rope_text(*old(r)).take(start as int) + rope_text(*old(r)).skip(
            end as int,
        ),
{
    r.remove(start..end)
}

/// `ropey::Rope::char_to_line`: the number of the line that holds a position.
/// It panics behind the end.
#[verifier::external_body]
pub(crate) fn rope_char_to_line(r: &Rope, at: usize) -> (line: usize)
    requires
        at <= rope_text(*r).len(),
    ensures
        line == line_of(rope_text(*r), at as int),
{
    r.char_to_line(at)
}

/// `ropey::Rope::line_to_char`: where a line starts; one behind the last line
/// it is the end of the text. It panics further on.
#[verifier::external_body]
pub(crate) fn rope_line_to_char(r: &Rope, line: usize) -> (at: usize)
    requires
        line <= line_count(rope_text(*r)),
    ensures
        at == line_start(rope_text(*r), line as int),
{
    r.line_to_char(line)
}

/// `ropey::Rope::get_line`: a line with its line break, and nothing behind the
/// last line.
#[verifier::external_body]
pub(crate) fn rope_get_line(r: &Rope, line: usize) -> (res: Option<String>)
    ensures
        match res {
            Some(s) => line < line_count(rope_text(*r)) && s@ == line_text(
                rope_text(*r),
                line as int,
            ),
            None => line >= line_count(rope_text(*r)),
        },
{
    r.get_line(line).map(|l| l.to_string())
}

/// `ropey::Rope::slice`: the characters from `start` up to `end`. It panics
/// where that is not a range of the text.
#[verifier::external_body]
pub(crate) fn rope_slice(r: &Rope, start: usize, end: usize) -> (s: String)
    requires
        start <= end <= rope_text(*r).len(),
    ensures
        s@ == rope_text(*r).subrange(start as int, end as int),
{
    r.slice(start..end).to_string()
}

/// The number of characters of a line, with its line break.
pub(crate) fn rope_line_len(r: &Rope, line: usize) -> (n: usize)
    requires
        line < line_count(rope_text(*r)),
    ensures
        n == line_len(rope_text(*r), line as int),
{
    let s: String = rope_get_line(r, line).unwrap();
    proof {
        lemma_line_starts_ordered(rope_text(*r), line as int, line + 1);
    }
    s.as_str().unicode_len()
}

/// The same text again.
pub(crate) fn rope_copy(r: &Rope) -> (res: Rope)
    ensures
        rope_text(res) == rope_text(*r),
{
    let n: usize = rope_len_chars(r);
    let s: String = rope_slice(r, 0, n);
    proof {
        assert(rope_text(*r).subrange(0, n as int) =~= rope_text(*r));
    }
    rope_from_str(s.as_str())
}

/// Every line but the last has a line break.
pub proof fn lemma_inner_line(t: Seq<char>, line: int)
    requires
        0 <= line,
        line + 1 < line_count(t),
    ensures
        line_len(t, line) >= 1,
{
    lemma_line_starts_ordered(t, line, line + 1);
    lemma_line_start(t, line);
    lemma_line_start(t, line + 1);
}

} // verus!
