//! Strings as sequences of characters: positions in bytes, words, decimals.
use vstd::prelude::*;

verus! {

/// The texts of a list of strings.
pub open spec fn texts(v: Seq<String>) -> Seq<Seq<char>> {
    v.map_values(|s: String| s@)
}

/// The text of a string that may be missing.
pub open spec fn option_text(s: Option<String>) -> Option<Seq<char>> {
    match s {
        Some(s) => Some(s@),
        None => None,
    }
}

// ---- positions in bytes

/// How many bytes a character takes in UTF-8.
pub open spec fn width(c: char) -> int {
    if (c as u32) < 0x80 {
        1
    } else if (c as u32) < 0x800 {
        2
    } else if (c as u32) < 0x10000 {
        3
    } else {
        4
    }
}

/// How many bytes a text takes in UTF-8.
pub open spec fn utf8_len(s: Seq<char>) -> int
    decreases s.len(),
{
    if s.len() == 0 {
        0
    } else {
        utf8_len(s.drop_last()) + width(s.last())
    }
}

/// The byte position in front of character `k`.
pub open spec fn byte_at(s: Seq<char>, k: int) -> int {
    utf8_len(s.take(k))
}

/// Byte position `b` lies between two characters or at an end of the text.
pub open spec fn is_boundary(s: Seq<char>, b: int) -> bool {
    exists|k: int| 0 <= k <= s.len() && #[trigger] byte_at(s, k) == b
}

/// The number of characters in front of byte position `b`.
pub open spec fn char_at(s: Seq<char>, b: int) -> int {
    choose|k: int| 0 <= k <= s.len() && #[trigger] byte_at(s, k) == b
}

pub proof fn lemma_byte_at_step(s: Seq<char>, k: int)
    requires
        0 <= k < s.len(),
    ensures
        byte_at(s, k + 1) == byte_at(s, k) + width(s[k]),
        byte_at(s, 0) == 0,
{
    assert(s.take(k + 1).drop_last() =~= s.take(k));
    assert(s.take(k + 1).last() == s[k]);
    assert(s.take(0).len() == 0);
}

pub proof fn lemma_byte_at_ordered(s: Seq<char>, j: int, k: int)
    requires
        0 <= j <= k <= s.len(),
    ensures
        0 <= byte_at(s, j),
        k - j <= byte_at(s, k) - byte_at(s, j),
    decreases k,
{
    if k == 0 {
        assert(s.take(0).len() == 0);
    } else if j == k {
        lemma_byte_at_ordered(s, j - 1, k - 1);
        lemma_byte_at_step(s, k - 1);
    } else {
        lemma_byte_at_ordered(s, j, k - 1);
        lemma_byte_at_step(s, k - 1);
    }
}

/// Byte positions tell characters apart.
pub proof fn lemma_char_at(s: Seq<char>, k: int)
    requires
        0 <= k <= s.len(),
    ensures
        is_boundary(s, byte_at(s, k)),
        char_at(s, byte_at(s, k)) == k,
        0 <= byte_at(s, k) <= utf8_len(s),
        k <= byte_at(s, k),
        byte_at(s, 0) == 0,
        byte_at(s, s.len() as int) == utf8_len(s),
{
    let j = char_at(s, byte_at(s, k));
    assert(byte_at(s, k) == byte_at(s, k));
    assert(0 <= j <= s.len() && byte_at(s, j) == byte_at(s, k));
    if j < k {
        lemma_byte_at_ordered(s, j, k);
    } else if k < j {
        lemma_byte_at_ordered(s, k, j);
    }
    lemma_byte_at_ordered(s, 0, k);
    lemma_byte_at_ordered(s, k, s.len() as int);
    assert(s.take(s.len() as int) =~= s);
    assert(s.take(0).len() == 0);
}

pub proof fn lemma_boundary(s: Seq<char>, b: int)
    requires
        is_boundary(s, b),
    ensures
        0 <= char_at(s, b) <= s.len(),
        byte_at(s, char_at(s, b)) == b,
        0 <= b <= utf8_len(s),
{
    let k = char_at(s, b);
    assert(0 <= k <= s.len() && byte_at(s, k) == b);
    lemma_char_at(s, k);
}

/// `String::len`: the length in bytes.
pub assume_specification[ String::len ](s: &String) -> (n: usize)
    ensures
        n == utf8_len(s@),
;

/// `String::push`: the character goes behind the last one.
pub assume_specification[ String::push ](s: &mut String, c: char)
    ensures
        final(s)@ == old(s)@.push(c),
;

/// `String::insert`: the character goes in at a byte position. It panics where
/// no character starts or ends.
pub assume_specification[ String::insert ](s: &mut String, idx: usize, c: char)
    requires
        is_boundary(old(s)@, idx as int),
    ensures
        final(s)@ == old(s)@.insert(char_at(old(s)@, idx as int), c),
;

/// `String::remove`: the character at a byte position goes out and is
/// returned. It panics at the end and where no character starts.
pub assume_specification[ String::remove ](s: &mut String, idx: usize) -> (c: char)
    requires
        is_boundary(old(s)@, idx as int),
        idx < utf8_len(old(s)@),
    ensures
        c == old(s)@[char_at(old(s)@, idx as int)],
        final(s)@ == old(s)@.remove(char_at(old(s)@, idx as int)),
;

/// `char::len_utf8`: how many bytes the character takes in UTF-8.
pub assume_specification[ char::len_utf8 ](c: char) -> (n: usize)
    ensures
        n == width(c),
;

// ---- characters of a string

pub fn chars_of(s: &str) -> (v: Vec<char>)
    ensures
        v@ == s@,
{
    let mut v: Vec<char> = Vec::new();
    for c in it: s.chars()
        invariant
            it.seq() == s@,
            v@ == s@.take(it.index()),
    {
        v.push(c);
        assert(s@.take(it.index() + 1) =~= s@.take(it.index()).push(c));
    }
    assert(s@.take(s@.len() as int) =~= s@);
    v
}

/// The characters of a list from `start` up to `end` as a string.
pub fn string_of(v: &Vec<char>, start: usize, end: usize) -> (s: String)
    requires
        start <= end <= v@.len(),
    ensures
        s@ == v@.subrange(start as int, end as int),
{
    let mut s: String = String::new();
    let mut i: usize = start;
    assert(v@.subrange(start as int, start as int) =~= Seq::<char>::empty());
    while i < end
        invariant
            start <= i <= end <= v@.len(),
            s@ == v@.subrange(start as int, i as int),
        decreases end - i,
    {
        s.push(v[i]);
        i = i + 1;
        assert(v@.subrange(start as int, i as int) =~= v@.subrange(start as int, i - 1).push(
            v@[i - 1],
        ));
    }
    s
}

/// The number of characters in front of a byte position.
pub fn char_index(s: &String, b: usize) -> (k: usize)
    requires
        is_boundary(s@, b as int),
    ensures
        k == char_at(s@, b as int),
        k <= s@.len(),
{
    proof {
        lemma_boundary(s@, b as int);
        lemma_char_at(s@, 0);
    }
    let ghost at = char_at(s@, b as int);
    let chars: Vec<char> = chars_of(s.as_str());
    let total: usize = s.len();
    let mut start: usize = 0;
    let mut k: usize = 0;
    while start < b
        invariant
            k <= at <= s@.len(),
            chars@ == s@,
            total == utf8_len(s@),
            at == char_at(s@, b as int),
            byte_at(s@, at) == b,
            b <= total,
            start == byte_at(s@, k as int),
            start <= b,
        decreases at - k,
    {
        proof {
            if k == at {
                assert(start == b);
            }
            lemma_byte_at_step(s@, k as int);
            lemma_byte_at_ordered(s@, k + 1, at);
            lemma_char_at(s@, k + 1);
        }
        start = start + chars[k].len_utf8();
        k = k + 1;
    }
    proof {
        lemma_char_at(s@, k as int);
    }
    k
}

/// Whether a byte position lies between two characters or at an end.
pub fn on_boundary(s: &String, b: usize) -> (res: bool)
    ensures
        res == is_boundary(s@, b as int),
{
    let chars: Vec<char> = chars_of(s.as_str());
    let total: usize = s.len();
    let mut start: usize = 0;
    let mut k: usize = 0;
    proof {
        lemma_char_at(s@, 0);
    }
    while k < chars.len() && start < b
        invariant
            k <= s@.len(),
            chars@ == s@,
            total == utf8_len(s@),
            start == byte_at(s@, k as int),
            forall|j: int| 0 <= j < k ==> #[trigger] byte_at(s@, j) < b,
        decreases s@.len() - k,
    {
        proof {
            lemma_byte_at_step(s@, k as int);
            lemma_byte_at_ordered(s@, k + 1, s@.len() as int);
            assert(s@.take(s@.len() as int) =~= s@);
        }
        start = start + chars[k].len_utf8();
        k = k + 1;
    }
    proof {
        if start == b {
            assert(byte_at(s@, k as int) == b);
        } else {
            assert forall|j: int| 0 <= j <= s@.len() implies #[trigger] byte_at(s@, j) != b by {
                if j >= k {
                    lemma_byte_at_ordered(s@, k as int, j);
                }
            }
        }
    }
    start == b
}

/// A string with one more character in front of character `k`.
pub fn with_char(s: &str, k: usize, c: char) -> (res: String)
    requires
        k <= s@.len(),
    ensures
        res@ == s@.insert(k as int, c),
{
    let mut v: Vec<char> = chars_of(s);
    v.insert(k, c);
    let res: String = string_of(&v, 0, v.len());
    assert(v@.subrange(0, v@.len() as int) =~= v@);
    res
}

// ---- words

/// The characters with the Unicode property White_Space, as the file
/// PropList.txt of the Unicode character database lists them.
pub open spec fn is_white(c: char) -> bool {
    ||| '\u{9}' <= c <= '\u{D}'
    ||| c == '\u{20}'
    ||| c == '\u{85}'
    ||| c == '\u{A0}'
    ||| c == '\u{1680}'
    ||| '\u{2000}' <= c <= '\u{200A}'
    ||| c == '\u{2028}'
    ||| c == '\u{2029}'
    ||| c == '\u{202F}'
    ||| c == '\u{205F}'
    ||| c == '\u{3000}'
}

/// `char::is_whitespace`: whether the character has the property White_Space.
pub assume_specification[ char::is_whitespace ](c: char) -> (res: bool)
    ensures
        res == is_white(c),
;

/// The longest runs of characters that are not white space.
pub open spec fn words(s: Seq<char>) -> Seq<Seq<char>>
    decreases s.len(),
{
    if s.len() == 0 {
        Seq::empty()
    } else {
        let before = words(s.drop_last());
        let c = s.last();
        if is_white(c) {
            before
        } else if s.len() > 1 && !is_white(s[s.len() - 2]) {
            before.update(before.len() - 1, before.last().push(c))
        } else {
            before.push(seq![c])
        }
    }
}

pub proof fn lemma_in_word(s: Seq<char>)
    requires
        s.len() > 0,
        !is_white(s.last()),
    ensures
        words(s).len() > 0,
    decreases s.len(),
{
    if s.len() > 1 && !is_white(s[s.len() - 2]) {
        lemma_in_word(s.drop_last());
    }
}

pub fn split_words(s: &str) -> (res: Vec<String>)
    ensures
        texts(res@) == words(s@),
{
    let chars: Vec<char> = chars_of(s);
    let mut res: Vec<String> = Vec::new();
    let mut i: usize = 0;
    let mut in_word: bool = false;
    assert(texts(res@) =~= Seq::<Seq<char>>::empty());
    while i < chars.len()
        invariant
            i <= chars@.len(),
            chars@ == s@,
            texts(res@) == words(s@.take(i as int)),
            in_word == (i > 0 && !is_white(s@[i - 1])),
        decreases chars@.len() - i,
    {
        let c: char = chars[i];
        let ghost before = res@;
        let ghost now = s@.take(i + 1);
        proof {
            assert(now.drop_last() =~= s@.take(i as int));
            assert(now.last() == c);
        }
        if c.is_whitespace() {
            in_word = false;
        } else {
            if in_word {
                proof {
                    assert(s@.take(i as int).last() == s@[i - 1]);
                    lemma_in_word(s@.take(i as int));
                    assert(texts(before).len() == before.len());
                }
                let mut word: String = res.pop().unwrap();
                word.push(c);
                res.push(word);
                assert(texts(res@) =~= texts(before).update(
                    before.len() - 1,
                    texts(before).last().push(c),
                ));
            } else {
                let mut word: String = String::new();
                word.push(c);
                assert(word@ =~= seq![c]);
                res.push(word);
                assert(texts(res@) =~= texts(before).push(seq![c]));
            }
            in_word = true;
        }
        i = i + 1;
    }
    assert(s@.take(i as int) =~= s@);
    res
}

// ---- decimals

pub open spec fn digit(d: int) -> char {
    if d == 0 {
        '0'
    } else if d == 1 {
        '1'
    } else if d == 2 {
        '2'
    } else if d == 3 {
        '3'
    } else if d == 4 {
        '4'
    } else if d == 5 {
        '5'
    } else if d == 6 {
        '6'
    } else if d == 7 {
        '7'
    } else if d == 8 {
        '8'
    } else {
        '9'
    }
}

/// A number written down in decimal.
pub open spec fn decimal(n: nat) -> Seq<char>
    decreases n,
{
    if n < 10 {
        seq![digit(n as int)]
    } else {
        decimal(n / 10).push(digit((n % 10) as int))
    }
}

fn digit_char(d: usize) -> (c: char)
    requires
        d < 10,
    ensures
        c == digit(d as int),
{
    match d {
        0 => '0',
        1 => '1',
        2 => '2',
        3 => '3',
        4 => '4',
        5 => '5',
        6 => '6',
        7 => '7',
        8 => '8',
        _ => '9',
    }
}

pub fn to_decimal(n: usize) -> (s: String)
    ensures
        s@ == decimal(n as nat),
    decreases n,
{
    if n < 10 {
        let mut s: String = String::new();
        s.push(digit_char(n));
        assert(s@ =~= seq![digit(n as int)]);
        s
    } else {
        let mut s: String = to_decimal(n / 10);
        s.push(digit_char(n % 10));
        s
    }
}

pub open spec fn digit_value(c: char) -> int {
    c as int - '0' as int
}

pub open spec fn is_digit(c: char) -> bool {
    '0' <= c <= '9'
}

pub open spec fn all_digits(s: Seq<char>) -> bool {
    forall|i: int| 0 <= i < s.len() ==> is_digit(#[trigger] s[i])
}

/// The number that a row of digits stands for.
pub open spec fn number(s: Seq<char>) -> int
    decreases s.len(),
{
    if s.len() == 0 {
        0
    } else {
        10 * number(s.drop_last()) + digit_value(s.last())
    }
}

/// A number read from a text: digits, with or without a plus sign in front.
pub open spec fn read_number(s: Seq<char>) -> Option<usize> {
    let d = if s.len() > 0 && s[0] == '+' {
        s.skip(1)
    } else {
        s
    };
    if d.len() > 0 && all_digits(d) && number(d) <= usize::MAX {
        Some(number(d) as usize)
    } else {
        None
    }
}

proof fn lemma_number_grows(s: Seq<char>, k: int)
    requires
        all_digits(s),
        0 <= k <= s.len(),
    ensures
        0 <= number(s.take(k)) <= number(s),
    decreases s.len(),
{
    if k == s.len() {
        assert(s.take(k) =~= s);
        if k > 0 {
            assert(all_digits(s.drop_last())) by {
                assert forall|i: int| 0 <= i < s.drop_last().len() implies is_digit(
                    #[trigger] s.drop_last()[i],
                ) by {
                    let _ = s[i];
                }
            }
            lemma_number_grows(s.drop_last(), k - 1);
            assert(is_digit(s[k - 1]));
            assert(s.drop_last().take(k - 1) =~= s.drop_last());
        }
    } else {
        assert(all_digits(s.drop_last())) by {
            assert forall|i: int| 0 <= i < s.drop_last().len() implies is_digit(
                #[trigger] s.drop_last()[i],
            ) by {
                let _ = s[i];
            }
        }
        lemma_number_grows(s.drop_last(), k);
        assert(s.drop_last().take(k) =~= s.take(k));
        assert(is_digit(s[s.len() - 1]));
    }
}

fn char_digit(c: char) -> (d: Option<usize>)
    ensures
        d matches Some(v) ==> is_digit(c) && v == digit_value(c) && v < 10,
        d is None ==> !is_digit(c),
{
    match c {
        '0' => Some(0),
        '1' => Some(1),
        '2' => Some(2),
        '3' => Some(3),
        '4' => Some(4),
        '5' => Some(5),
        '6' => Some(6),
        '7' => Some(7),
        '8' => Some(8),
        '9' => Some(9),
        _ => None,
    }
}

pub fn parse_number(s: &str) -> (res: Option<usize>)
    ensures
        res == read_number(s@),
{
    let chars: Vec<char> = chars_of(s);
    let start: usize = if chars.len() > 0 && chars[0] == '+' {
        1
    } else {
        0
    };
    let ghost d = s@.skip(start as int);
    assert(s@.skip(0) =~= s@);
    if start == chars.len() {
        return None;
    }
    let mut n: usize = 0;
    let mut i: usize = start;
    assert(d.take(0) =~= Seq::<char>::empty());
    while i < chars.len()
        invariant
            start <= i <= chars@.len(),
            start < chars@.len(),
            chars@ == s@,
            d == s@.skip(start as int),
            start == (if s@.len() > 0 && s@[0] == '+' {
                1int
            } else {
                0int
            }),
            s@.skip(0) == s@,
            forall|k: int| 0 <= k < i - start ==> is_digit(#[trigger] d[k]),
            n == number(d.take(i - start)),
        decreases chars@.len() - i,
    {
        let ghost k = i - start;
        let v: usize = match char_digit(chars[i]) {
            Some(v) => v,
            None => {
                assert(!is_digit(d[k]));
                return None;
            },
        };
        proof {
            assert(d.take(k + 1).drop_last() =~= d.take(k));
            assert(d.take(k + 1).last() == d[k]);
            if all_digits(d) {
                lemma_number_grows(d, k + 1);
            }
        }
        if n > (usize::MAX - v) / 10 {
            return None;
        }
        n = n * 10 + v;
        i = i + 1;
    }
    assert(d.take(i - start) =~= d);
    Some(n)
}

/// A number that was written out is read again as it was.
pub proof fn law_decimal_reads(n: usize)
    ensures
        read_number(decimal(n as nat)) == Some(n),
{
    lemma_decimal(n as nat);
    let d = decimal(n as nat);
    assert(is_digit(d[0]));
}

pub proof fn lemma_decimal(n: nat)
    ensures
        decimal(n).len() > 0,
        all_digits(decimal(n)),
        number(decimal(n)) == n,
    decreases n,
{
    let d = decimal(n);
    if n < 10 {
        assert(d.drop_last() =~= Seq::<char>::empty());
        assert(number(d.drop_last()) == 0);
    } else {
        lemma_decimal(n / 10);
        assert(d.drop_last() =~= decimal(n / 10));
        assert forall|i: int| 0 <= i < d.len() implies is_digit(#[trigger] d[i]) by {
            if i < d.len() - 1 {
                assert(is_digit(decimal(n / 10)[i]));
            }
        }
    }
}

} // verus!
