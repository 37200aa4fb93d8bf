//! How a line is read: its words, the command that the first one names, the
//! argument behind it, and what it can be completed to.
use vstd::prelude::*;
use crate::auto_complete;
use crate::auto_complete::Listing;
use crate::commands;
use crate::commands::{ArgKind, ArgSpec, ArgValView, Cmd, CmdSpecView, CmdValView};
use crate::strings;

verus! {

// ---- words

/// No character of the text is white.
pub open spec fn solid(s: Seq<char>) -> bool {
    forall|i: int| 0 <= i < s.len() ==> !strings::is_white(#[trigger] s[i])
}

/// A text without white characters is one word.
pub proof fn law_one_word(s: Seq<char>)
    requires
        s.len() > 0,
        solid(s),
    ensures
        strings::words(s) == seq![s],
    decreases s.len(),
{
    let t = s.drop_last();
    if s.len() > 1 {
        assert forall|i: int| 0 <= i < t.len() implies !strings::is_white(#[trigger] t[i]) by {
            assert(t[i] == s[i]);
        }
        law_one_word(t);
        assert(strings::words(s) =~= seq![t.push(s.last())]);
        assert(t.push(s.last()) =~= s);
    } else {
        assert(strings::words(t) =~= Seq::<Seq<char>>::empty());
        assert(strings::words(s) =~= seq![seq![s.last()]]);
        assert(s =~= seq![s.last()]);
    }
}

/// White characters part words: the words of a text are those in front of one
/// and then those behind it.
pub proof fn law_words_apart(a: Seq<char>, w: char, b: Seq<char>)
    requires
        strings::is_white(w),
    ensures
        strings::words(a.push(w) + b) == strings::words(a) + strings::words(b),
    decreases b.len(),
{
    let s = a.push(w) + b;
    if b.len() == 0 {
        assert(s =~= a.push(w));
        assert(s.drop_last() =~= a);
        assert(strings::words(a) + strings::words(b) =~= strings::words(a));
    } else {
        let c = b.drop_last();
        law_words_apart(a, w, c);
        assert(s.drop_last() =~= a.push(w) + c);
        let (x, y) = (strings::words(a), strings::words(c));
        if b.len() > 1 && !strings::is_white(b[b.len() - 2]) {
            assert(s[s.len() - 2] == b[b.len() - 2]);
            assert(c.last() == b[b.len() - 2]);
            strings::lemma_in_word(c);
            assert((x + y).last() == y.last());
        } else if b.len() == 1 {
            assert(s[s.len() - 2] == w);
        } else {
            assert(s[s.len() - 2] == b[b.len() - 2]);
        }
        assert(strings::words(s) =~= x + strings::words(b));
    }
}

/// An empty line and one of white characters hold no word.
pub proof fn law_no_words(s: Seq<char>)
    requires
        forall|i: int| 0 <= i < s.len() ==> strings::is_white(#[trigger] s[i]),
    ensures
        strings::words(s).len() == 0,
    decreases s.len(),
{
    if s.len() > 0 {
        assert forall|i: int| 0 <= i < s.drop_last().len() implies strings::is_white(
            #[trigger] s.drop_last()[i],
        ) by {
            assert(s.drop_last()[i] == s[i]);
        }
        law_no_words(s.drop_last());
        assert(strings::is_white(s[s.len() - 1]));
    }
}

/// A command and its argument, with white characters between them, are read as
/// these two words.
pub proof fn law_two_words(a: Seq<char>, w: char, b: Seq<char>)
    requires
        a.len() > 0,
        b.len() > 0,
        solid(a),
        solid(b),
        strings::is_white(w),
    ensures
        strings::words(a.push(w) + b) == seq![a, b],
{
    law_words_apart(a, w, b);
    law_one_word(a);
    law_one_word(b);
    assert(seq![a] + seq![b] =~= seq![a, b]);
}

// ---- short names

/// The short name of a name with a dash is that of what is in front of it and
/// then that of what is behind it.
pub proof fn law_alias_parts(a: Seq<char>, b: Seq<char>)
    ensures
        commands::alias_of(a.push('-') + b) == commands::alias_of(a) + commands::alias_of(b),
    decreases b.len(),
{
    let s = a.push('-') + b;
    if b.len() == 0 {
        assert(s =~= a.push('-'));
        assert(s.drop_last() =~= a);
        assert(commands::alias_of(a) + commands::alias_of(b) =~= commands::alias_of(a));
    } else {
        let c = b.drop_last();
        law_alias_parts(a, c);
        assert(s.drop_last() =~= a.push('-') + c);
        if b.len() == 1 {
            assert(s[s.len() - 2] == '-');
        } else {
            assert(s[s.len() - 2] == b[b.len() - 2]);
        }
        assert(commands::alias_of(s) =~= commands::alias_of(a) + commands::alias_of(b));
    }
}

/// The short name of a name without a dash is its first letter.
pub proof fn law_alias_letter(s: Seq<char>)
    requires
        s.len() > 0,
        forall|i: int| 0 <= i < s.len() ==> #[trigger] s[i] != '-',
    ensures
        commands::alias_of(s) == seq![s[0]],
{
    commands::lemma_alias_single(s);
}

// ---- reading a command

/// The command with a name and what it takes.
pub open spec fn takes(
    c: CmdSpecView,
    name: Seq<char>,
    arg: Option<(ArgKind, bool)>,
    forcable: bool,
) -> bool {
    &&& c.name == name
    &&& c.forcable == forcable
    &&& match arg {
        Some((kind, required)) => c.arg == Some(ArgSpec { kind, required }),
        None => c.arg is None,
    }
}

/// Each command is known by one name, and what it takes is fixed.
pub proof fn law_commands(i: int)
    requires
        0 <= i < commands::registry().len(),
    ensures
        ({
            let c = commands::registry()[i];
            match c.cmd {
                Cmd::Cd => takes(c, "cd"@, Some((ArgKind::DirectoryPath, true)), false),
                Cmd::Quit => takes(c, "quit"@, None, true),
                Cmd::Save => takes(c, "write"@, Some((ArgKind::FilePath, false)), false),
                Cmd::Open => takes(c, "open"@, Some((ArgKind::FilePath, false)), false),
                Cmd::BufferClose => takes(
                    c,
                    "buffer-close"@,
                    Some((ArgKind::BufferIndex, false)),
                    true,
                ),
                Cmd::ViewClose => takes(c, "view-close"@, None, false),
                Cmd::BufferSwitch => takes(
                    c,
                    "buffer-switch"@,
                    Some((ArgKind::BufferIndex, true)),
                    false,
                ),
                Cmd::BufferList => takes(c, "buffer-list"@, None, false),
                Cmd::Split => takes(c, "split"@, None, false),
                Cmd::SplitH => takes(c, "split-horizontal"@, None, false),
                Cmd::SplitV => takes(c, "split-vertical"@, None, false),
                Cmd::Pwd => takes(c, "pwd"@, None, false),
            }
        }),
{
}

/// Every command there is can be called.
pub proof fn law_all_commands(cmd: Cmd)
    ensures
        exists|i: int| 0 <= i < commands::registry().len() && commands::registry()[i].cmd == cmd,
        commands::registry().len() == 12,
{
    let r = commands::registry();
    assert(r[0].cmd is Cd && r[1].cmd is Quit && r[2].cmd is Save && r[3].cmd is Open);
    assert(r[4].cmd is BufferClose && r[5].cmd is ViewClose && r[6].cmd is BufferSwitch);
    assert(r[7].cmd is BufferList && r[8].cmd is Split && r[9].cmd is SplitH);
    assert(r[10].cmd is SplitV && r[11].cmd is Pwd);
}

/// Where the first word is the name or the short name of a command, that
/// command is read, with the argument that it takes from the second word. Words
/// behind that are passed over.
pub proof fn law_read(i: int, words: Seq<Seq<char>>)
    requires
        0 <= i < commands::registry().len(),
        words.len() > 0,
        words[0] == commands::registry()[i].name || words[0] == commands::alias_of(
            commands::registry()[i].name,
        ),
    ensures
        ({
            let c = commands::registry()[i];
            let read = commands::read_words(words);
            match c.arg {
                None => read == Ok::<CmdValView, Seq<char>>(
                    CmdValView { cmd: c.cmd, argument: None, force: false },
                ),
                Some(a) => if words.len() == 1 {
                    if a.required {
                        read == Err::<CmdValView, Seq<char>>(
                            "command "@ + c.name + " requires arg but None was provided"@,
                        )
                    } else {
                        read == Ok::<CmdValView, Seq<char>>(
                            CmdValView { cmd: c.cmd, argument: None, force: false },
                        )
                    }
                } else {
                    match a.kind {
                        ArgKind::FilePath => read == Ok::<CmdValView, Seq<char>>(
                            CmdValView {
                                cmd: c.cmd,
                                argument: Some(ArgValView::FilePath(words[1])),
                                force: false,
                            },
                        ),
                        ArgKind::DirectoryPath => read == Ok::<CmdValView, Seq<char>>(
                            CmdValView {
                                cmd: c.cmd,
                                argument: Some(ArgValView::DirectoryPath(words[1])),
                                force: false,
                            },
                        ),
                        ArgKind::BufferIndex => match read {
                            Ok(v) => {
                                &&& v.cmd == c.cmd
                                &&& !v.force
                                &&& v.argument is Some
                                &&& v.argument->0 is BufferIndex
                            },
                            Err(m) => m
                                == "argument was not provided or was of wrong type or was of wrong type"@,
                        },
                    }
                },
            }
        }),
{
    commands::lemma_lookup(words[0], i);
    commands::lemma_no_mark(i);
}

/// A number that is written out as an argument is read as that number.
pub proof fn law_read_number(i: int, word: Seq<char>, n: usize)
    requires
        0 <= i < commands::registry().len(),
        word == commands::registry()[i].name || word == commands::alias_of(
            commands::registry()[i].name,
        ),
        commands::registry()[i].arg is Some,
        (commands::registry()[i].arg->0).kind is BufferIndex,
    ensures
        commands::read_words(seq![word, strings::decimal(n as nat)]) == Ok::<
            CmdValView,
            Seq<char>,
        >(
            CmdValView {
                cmd: commands::registry()[i].cmd,
                argument: Some(ArgValView::BufferIndex(n)),
                force: false,
            },
        ),
{
    commands::lemma_lookup(word, i);
    commands::lemma_no_mark(i);
    strings::law_decimal_reads(n);
}

/// A plus sign in front of a number makes no difference; what holds anything but
/// digits behind that is no number, nor is nothing.
pub proof fn law_numbers(s: Seq<char>, n: usize)
    ensures
        strings::read_number(seq!['+'] + strings::decimal(n as nat)) == Some(n),
        strings::read_number(Seq::empty()) is None,
        (exists|i: int| 0 < i < s.len() && !('0' <= #[trigger] s[i] <= '9'))
            ==> strings::read_number(s) is None,
        s.len() > 0 && s[0] != '+' && !('0' <= s[0] <= '9') ==> strings::read_number(s) is None,
{
    let d = strings::decimal(n as nat);
    strings::law_decimal_reads(n);
    let p = seq!['+'] + d;
    strings::lemma_decimal(n as nat);
    assert(p.skip(1) =~= d);
    assert(strings::is_digit(d[0]));
    if exists|i: int| 0 < i < s.len() && !('0' <= #[trigger] s[i] <= '9') {
        let i = choose|i: int| 0 < i < s.len() && !('0' <= #[trigger] s[i] <= '9');
        assert(s.skip(1)[i - 1] == s[i]);
        assert(!strings::is_digit(s.skip(1)[i - 1]));
        assert(!strings::is_digit(s[i]));
    }
    if s.len() > 0 && s[0] != '+' && !('0' <= s[0] <= '9') {
        assert(!strings::is_digit(s[0]));
    }
}

/// An exclamation mark behind the name forces a command that can be forced, and
/// makes no other difference; any other command is refused with it.
pub proof fn law_read_forced(i: int, words: Seq<Seq<char>>)
    requires
        0 <= i < commands::registry().len(),
        words.len() > 0,
        words[0] == commands::registry()[i].name || words[0] == commands::alias_of(
            commands::registry()[i].name,
        ),
    ensures
        ({
            let c = commands::registry()[i];
            let plain = commands::read_words(words);
            let forced = commands::read_words(words.update(0, words[0].push('!')));
            if !c.forcable {
                forced == Err::<CmdValView, Seq<char>>(c.name + " is not forcable"@)
            } else {
                match plain {
                    Ok(v) => forced == Ok::<CmdValView, Seq<char>>(CmdValView { force: true, ..v }),
                    Err(m) => forced == Err::<CmdValView, Seq<char>>(m),
                }
            }
        }),
{
    commands::lemma_lookup(words[0], i);
    commands::lemma_no_mark(i);
    let word = words[0].push('!');
    assert(word.drop_last() =~= words[0]);
    assert(commands::is_forced(word));
    assert(words.update(0, word)[0] == word);
    if words.len() > 1 {
        assert(words.update(0, word)[1] == words[1]);
    }
}

/// A line without words is no command, nor is one whose first word names none.
pub proof fn law_not_read(words: Seq<Seq<char>>)
    ensures
        words.len() == 0 ==> commands::read_words(words) == Err::<CmdValView, Seq<char>>(
            "command is empty"@,
        ),
        words.len() > 0 && !commands::is_forced(words[0]) && (forall|i: int|
            0 <= i < commands::registry().len() ==> words[0] != (
            #[trigger] commands::registry()[i]).name && words[0] != commands::alias_of(
                commands::registry()[i].name,
            )) ==> commands::read_words(words) == Err::<CmdValView, Seq<char>>(
            words[0] + " is not a command nor command alias"@,
        ),
{
}

// ---- what a line can be completed to

/// A word with more behind it.
pub open spec fn begins(s: Seq<char>, p: Seq<char>) -> bool {
    exists|rest: Seq<char>| s == #[trigger] (p + rest)
}

proof fn lemma_begins(s: Seq<char>, p: Seq<char>)
    ensures
        auto_complete::starts_with(s, p) <==> begins(s, p),
{
    if auto_complete::starts_with(s, p) {
        assert(s =~= p + s.skip(p.len() as int));
    }
    if begins(s, p) {
        let rest = choose|rest: Seq<char>| s == #[trigger] (p + rest);
        assert(s.take(p.len() as int) =~= p);
    }
}

/// Of a list those entries are kept that begin with a word, all of them, and no
/// others.
pub proof fn law_starting(list: Seq<Seq<char>>, p: Seq<char>, s: Seq<char>)
    ensures
        auto_complete::starting(list, p).contains(s) <==> list.contains(s) && begins(s, p),
    decreases list.len(),
{
    if list.len() == 0 {
        assert(list =~= Seq::empty());
        law_starting_order(list, p, s);
    } else {
        let rest = list.drop_last();
        law_starting(rest, p, s);
        law_starting_order(rest, p, list.last());
        assert(list =~= rest.push(list.last()));
        lemma_push_contains(rest, list.last(), s);
        lemma_push_contains(auto_complete::starting(rest, p), list.last(), s);
    }
}

proof fn lemma_push_contains(list: Seq<Seq<char>>, t: Seq<char>, s: Seq<char>)
    ensures
        list.push(t).contains(s) <==> list.contains(s) || s == t,
{
    let more = list.push(t);
    assert(more[list.len() as int] == t);
    if list.contains(s) {
        let k = choose|k: int| 0 <= k < list.len() && list[k] == s;
        assert(more[k] == s);
    }
    if more.contains(s) && s != t {
        let k = choose|k: int| 0 <= k < more.len() && more[k] == s;
        assert(list[k] == s);
    }
}

/// Of an entry that begins with the word the place among the others is kept,
/// and one that does not is left out.
pub proof fn law_starting_order(list: Seq<Seq<char>>, p: Seq<char>, s: Seq<char>)
    ensures
        begins(s, p) ==> auto_complete::starting(list.push(s), p) == auto_complete::starting(
            list,
            p,
        ).push(s),
        !begins(s, p) ==> auto_complete::starting(list.push(s), p) == auto_complete::starting(
            list,
            p,
        ),
        auto_complete::starting(Seq::empty(), p).len() == 0,
{
    lemma_begins(s, p);
    reveal(Seq::filter);
    assert(list.push(s).drop_last() =~= list);
}

/// The names of all commands are offered for an empty line; for one that holds
/// no command yet, those that begin with its first word.
pub proof fn law_commands_offered(
    input: Seq<char>,
    buffers: int,
    listed: Option<Seq<Seq<char>>>,
    s: Seq<char>,
)
    requires
        auto_complete::progress_of(input) is None,
    ensures
        ({
            let w = strings::words(input);
            let offered = auto_complete::completions(input, buffers, listed);
            let names = commands::registry().map_values(|c: CmdSpecView| c.name);
            &&& offered is Some
            &&& w.len() == 0 ==> offered->0 == names
            &&& w.len() > 0 && !commands::is_forced(w[0]) ==> ((offered->0).contains(s)
                <==> names.contains(s) && begins(s, w[0]))
        }),
{
    let w = strings::words(input);
    if w.len() > 0 {
        law_starting(auto_complete::command_names(), w[0], s);
    }
}

/// A command without an argument is completed no further. For the number of a
/// buffer the numbers of all buffers are offered.
pub proof fn law_numbers_offered(
    i: int,
    input: Seq<char>,
    buffers: int,
    listed: Option<Seq<Seq<char>>>,
    k: int,
)
    requires
        0 <= i < commands::registry().len(),
        strings::words(input).len() > 0,
        strings::words(input)[0] == commands::registry()[i].name,
        0 <= k < buffers,
    ensures
        ({
            let c = commands::registry()[i];
            let offered = auto_complete::completions(input, buffers, listed);
            &&& auto_complete::progress_of(input) == Some(c)
            &&& c.arg is None ==> offered is None
            &&& c.arg matches Some(a) ==> a.kind is BufferIndex ==> {
                &&& offered is Some
                &&& (offered->0).len() == buffers
                &&& (offered->0)[k] == strings::decimal(k as nat)
            }
        }),
{
    commands::lemma_lookup(strings::words(input)[0], i);
    commands::lemma_no_mark(i);
}

/// For a path what was listed is offered, last one first, as far as it begins
/// with the second word; nothing is where nothing could be listed.
pub proof fn law_paths_offered(
    i: int,
    input: Seq<char>,
    buffers: int,
    listed: Option<Seq<Seq<char>>>,
    s: Seq<char>,
)
    requires
        0 <= i < commands::registry().len(),
        strings::words(input).len() > 0,
        strings::words(input)[0] == commands::registry()[i].name,
        commands::registry()[i].arg is Some,
        !((commands::registry()[i].arg->0).kind is BufferIndex),
    ensures
        ({
            let w = strings::words(input);
            let offered = auto_complete::completions(input, buffers, listed);
            match listed {
                None => offered is None,
                Some(names) => {
                    &&& offered is Some
                    &&& w.len() == 1 ==> offered->0 == names.reverse()
                    &&& w.len() > 1 ==> ((offered->0).contains(s) <==> names.contains(s)
                        && begins(s, w[1]))
                },
            }
        }),
{
    let w = strings::words(input);
    commands::lemma_lookup(w[0], i);
    commands::lemma_no_mark(i);
    if listed is Some && w.len() > 1 {
        let names = listed->0;
        law_starting(names.reverse(), w[1], s);
        if names.contains(s) {
            let k = choose|k: int| 0 <= k < names.len() && names[k] == s;
            assert(names.reverse()[names.len() - 1 - k] == s);
        }
        if names.reverse().contains(s) {
            let k = choose|k: int| 0 <= k < names.len() && names.reverse()[k] == s;
            assert(names[names.len() - 1 - k] == s);
        }
    }
}

/// Files are listed for a command that takes a file, directories for one that
/// takes a directory, and nothing for any other line.
pub proof fn law_listing(input: Seq<char>)
    ensures
        ({
            let wants = match auto_complete::progress_of(input) {
                Some(c) => c.arg,
                None => None,
            };
            let l = auto_complete::listing_of(input);
            &&& l == Listing::Files <==> wants is Some && (wants->0).kind is FilePath
            &&& l == Listing::Directories <==> wants is Some && (wants->0).kind is DirectoryPath
        }),
{
}

} // verus!
