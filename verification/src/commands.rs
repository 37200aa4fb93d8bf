//! The commands of the command line: their registry, their aliases, and the
//! reading of a line as a command.
use vstd::prelude::*;
use vstd::string::*;
use crate::strings;

verus! {

#[derive(Clone, Copy, PartialEq, Eq, Structural)]
pub enum ArgKind {
    FilePath,
    DirectoryPath,
    BufferIndex,
}

#[derive(Clone, Copy, PartialEq, Eq, Structural)]
pub struct ArgSpec {
    pub kind: ArgKind,
    pub required: bool,
}

#[derive(Clone, Copy, PartialEq, Eq, Structural)]
pub enum Cmd {
    Cd,
    Pwd,
    BufferList,
    Quit,
    Save,
    Open,
    BufferSwitch,
    BufferClose,
    Split,
    SplitV,
    SplitH,
    ViewClose,
}

/// A command: its name is lower case, in kebab case, without spaces.
#[derive(Clone, Copy)]
pub struct CmdSpec {
    pub name: &'static str,
    pub arg: Option<ArgSpec>,
    pub forcable: bool,
    pub cmd: Cmd,
}

pub struct CmdSpecView {
    pub name: Seq<char>,
    pub arg: Option<ArgSpec>,
    pub forcable: bool,
    pub cmd: Cmd,
}

impl View for CmdSpec {
    type V = CmdSpecView;

    open spec fn view(&self) -> CmdSpecView {
        CmdSpecView { name: self.name@, arg: self.arg, forcable: self.forcable, cmd: self.cmd }
    }
}

pub open spec fn command(
    name: Seq<char>,
    arg: Option<ArgSpec>,
    forcable: bool,
    cmd: Cmd,
) -> CmdSpecView {
    CmdSpecView { name, arg, forcable, cmd }
}

/// All commands.
pub open spec fn registry() -> Seq<CmdSpecView> {
    seq![
        command("cd"@, Some(ArgSpec { kind: ArgKind::DirectoryPath, required: true }), false, Cmd::Cd),
        command("quit"@, None, true, Cmd::Quit),
        command("write"@, Some(ArgSpec { kind: ArgKind::FilePath, required: false }), false, Cmd::Save),
        command("open"@, Some(ArgSpec { kind: ArgKind::FilePath, required: false }), false, Cmd::Open),
        command("buffer-close"@, Some(ArgSpec { kind: ArgKind::BufferIndex, required: false }), true, Cmd::BufferClose),
        command("view-close"@, None, false, Cmd::ViewClose),
        command("buffer-switch"@, Some(ArgSpec { kind: ArgKind::BufferIndex, required: true }), false, Cmd::BufferSwitch),
        command("buffer-list"@, None, false, Cmd::BufferList),
        command("split"@, None, false, Cmd::Split),
        command("split-horizontal"@, None, false, Cmd::SplitH),
        command("split-vertical"@, None, false, Cmd::SplitV),
        command("pwd"@, None, false, Cmd::Pwd),
    ]
}

pub open spec fn spec_views(s: Seq<CmdSpec>) -> Seq<CmdSpecView> {
    s.map_values(|c: CmdSpec| c@)
}

/// The list of all commands.
pub fn command_registery() -> (v: Vec<CmdSpec>)
    ensures
        spec_views(v@) == registry(),
{
    let mut v: Vec<CmdSpec> = Vec::new();
    v.push(CmdSpec { name: "cd", arg: Some(ArgSpec { kind: ArgKind::DirectoryPath, required: true }), forcable: false, cmd: Cmd::Cd });
    v.push(CmdSpec { name: "quit", arg: None, forcable: true, cmd: Cmd::Quit });
    v.push(CmdSpec { name: "write", arg: Some(ArgSpec { kind: ArgKind::FilePath, required: false }), forcable: false, cmd: Cmd::Save });
    v.push(CmdSpec { name: "open", arg: Some(ArgSpec { kind: ArgKind::FilePath, required: false }), forcable: false, cmd: Cmd::Open });
    v.push(CmdSpec { name: "buffer-close", arg: Some(ArgSpec { kind: ArgKind::BufferIndex, required: false }), forcable: true, cmd: Cmd::BufferClose });
    v.push(CmdSpec { name: "view-close", arg: None, forcable: false, cmd: Cmd::ViewClose });
    v.push(CmdSpec { name: "buffer-switch", arg: Some(ArgSpec { kind: ArgKind::BufferIndex, required: true }), forcable: false, cmd: Cmd::BufferSwitch });
    v.push(CmdSpec { name: "buffer-list", arg: None, forcable: false, cmd: Cmd::BufferList });
    v.push(CmdSpec { name: "split", arg: None, forcable: false, cmd: Cmd::Split });
    v.push(CmdSpec { name: "split-horizontal", arg: None, forcable: false, cmd: Cmd::SplitH });
    v.push(CmdSpec { name: "split-vertical", arg: None, forcable: false, cmd: Cmd::SplitV });
    v.push(CmdSpec { name: "pwd", arg: None, forcable: false, cmd: Cmd::Pwd });
    assert(spec_views(v@) =~= registry());
    v
}

/// The short form of a name: its first letter and every letter directly
/// behind a dash.
pub open spec fn alias_of(name: Seq<char>) -> Seq<char>
    decreases name.len(),
{
    if name.len() == 0 {
        Seq::empty()
    } else {
        let short = alias_of(name.drop_last());
        if name.last() != '-' && (name.len() == 1 || name[name.len() - 2] == '-') {
            short.push(name.last())
        } else {
            short
        }
    }
}

pub fn alias(command: &str) -> (result: String)
    ensures
        result@ == alias_of(command@),
{
    let chars: Vec<char> = strings::chars_of(command);
    let mut result: String = String::new();
    let mut keep_next: bool = true;
    let mut i: usize = 0;
    while i < chars.len()
        invariant
            i <= chars@.len(),
            chars@ == command@,
            result@ == alias_of(command@.take(i as int)),
            keep_next == (i == 0 || command@[i - 1] == '-'),
        decreases chars@.len() - i,
    {
        let c: char = chars[i];
        proof {
            assert(command@.take(i + 1).drop_last() =~= command@.take(i as int));
            assert(command@.take(i + 1).last() == c);
        }
        if c == '-' {
            keep_next = true;
        } else if keep_next {
            result.push(c);
            keep_next = false;
        }
        i = i + 1;
    }
    assert(command@.take(i as int) =~= command@);
    result
}

/// Two commands of a list share an alias.
pub open spec fn collide(specs: Seq<CmdSpecView>, i: int, j: int) -> bool {
    &&& 0 <= i < j < specs.len()
    &&& alias_of(specs[i].name) == alias_of(specs[j].name)
}

/// The first command of a list whose alias is already that of one before it,
/// with that one.
pub fn find_alias_collision(specs: &Vec<CmdSpec>) -> (res: Option<(usize, usize)>)
    ensures
        match res {
            Some((i, j)) => {
                &&& collide(spec_views(specs@), i as int, j as int)
                &&& forall|a: int, b: int| b < j ==> !collide(spec_views(specs@), a, b)
            },
            None => forall|a: int, b: int| !collide(spec_views(specs@), a, b),
        },
{
    let ghost v = spec_views(specs@);
    let mut seen: Vec<String> = Vec::new();
    let mut j: usize = 0;
    while j < specs.len()
        invariant
            j <= specs@.len(),
            v == spec_views(specs@),
            seen@.len() == j,
            forall|k: int| 0 <= k < j ==> (#[trigger] seen@[k])@ == alias_of(v[k].name),
            forall|a: int, b: int| b < j ==> !collide(v, a, b),
        decreases specs@.len() - j,
    {
        let short: String = alias(specs[j].name);
        let mut i: usize = 0;
        while i < seen.len()
            invariant
                i <= j,
                j < specs@.len(),
                v == spec_views(specs@),
                seen@.len() == j,
                short@ == alias_of(v[j as int].name),
                forall|k: int| 0 <= k < j ==> (#[trigger] seen@[k])@ == alias_of(v[k].name),
                forall|a: int, b: int| b < j ==> !collide(v, a, b),
                forall|a: int| a < i ==> !collide(v, a, j as int),
            decreases j - i,
        {
            if seen[i] == short {
                return Some((i, j));
            }
            i = i + 1;
        }
        seen.push(short);
        j = j + 1;
    }
    None
}

/// Looks for two commands with the same alias. There are none.
pub fn check_alias_collison() -> (res: Option<(usize, usize)>)
    ensures
        res is None,
{
    let specs: Vec<CmdSpec> = command_registery();
    proof {
        law_aliases_distinct();
    }
    find_alias_collision(&specs)
}

pub proof fn lemma_alias_single(s: Seq<char>)
    requires
        s.len() > 0,
        forall|i: int| 0 <= i < s.len() ==> #[trigger] s[i] != '-',
    ensures
        alias_of(s) == seq![s[0]],
    decreases s.len(),
{
    if s.len() > 1 {
        let t = s.drop_last();
        assert forall|i: int| 0 <= i < t.len() implies #[trigger] t[i] != '-' by {
            let _ = s[i];
        }
        lemma_alias_single(t);
        assert(s[s.len() - 2] != '-');
    } else {
        assert(alias_of(s.drop_last()) =~= Seq::<char>::empty());
        assert(alias_of(s) =~= seq![s[0]]);
    }
}

proof fn lemma_alias_pair(s: Seq<char>, k: int)
    requires
        0 < k < s.len() - 1,
        s[k] == '-',
        forall|i: int| 0 <= i < s.len() && i != k ==> #[trigger] s[i] != '-',
    ensures
        alias_of(s) == seq![s[0], s[k + 1]],
    decreases s.len(),
{
    let t = s.drop_last();
    if k < s.len() - 2 {
        assert forall|i: int| 0 <= i < t.len() && i != k implies #[trigger] t[i] != '-' by {
            let _ = s[i];
        }
        lemma_alias_pair(t, k);
        assert(s[s.len() - 2] != '-');
    } else {
        let u = t.drop_last();
        assert forall|i: int| 0 <= i < u.len() implies #[trigger] u[i] != '-' by {
            let _ = s[i];
        }
        lemma_alias_single(u);
        assert(alias_of(t) == alias_of(u));
        assert(alias_of(s) =~= seq![s[0], s[k + 1]]);
    }
}

/// A word names a command: it is the command's name or its alias.
pub open spec fn names(c: CmdSpecView, word: Seq<char>) -> bool {
    word == c.name || word == alias_of(c.name)
}

/// What tells the words for command `i` from those for another.
spec fn looks_like(i: int, word: Seq<char>) -> bool {
    if i == 0 {
        (word.len() == 2 && word[0] == 'c') || (word.len() == 1 && word[0] == 'c')
    } else if i == 1 {
        (word.len() == 4 && word[0] == 'q') || (word.len() == 1 && word[0] == 'q')
    } else if i == 2 {
        (word.len() == 5 && word[0] == 'w') || (word.len() == 1 && word[0] == 'w')
    } else if i == 3 {
        (word.len() == 4 && word[0] == 'o') || (word.len() == 1 && word[0] == 'o')
    } else if i == 4 {
        (word.len() == 12 && word[0] == 'b') || (word.len() == 2 && word[0] == 'b' && word[1] == 'c')
    } else if i == 5 {
        (word.len() == 10 && word[0] == 'v') || (word.len() == 2 && word[0] == 'v' && word[1] == 'c')
    } else if i == 6 {
        (word.len() == 13 && word[0] == 'b') || (word.len() == 2 && word[0] == 'b' && word[1] == 's')
    } else if i == 7 {
        (word.len() == 11 && word[0] == 'b') || (word.len() == 2 && word[0] == 'b' && word[1] == 'l')
    } else if i == 8 {
        (word.len() == 5 && word[0] == 's') || (word.len() == 1 && word[0] == 's')
    } else if i == 9 {
        (word.len() == 16 && word[0] == 's') || (word.len() == 2 && word[0] == 's' && word[1] == 'h')
    } else if i == 10 {
        (word.len() == 14 && word[0] == 's') || (word.len() == 2 && word[0] == 's' && word[1] == 'v')
    } else if i == 11 {
        (word.len() == 3 && word[0] == 'p') || (word.len() == 1 && word[0] == 'p')
    } else {
        false
    }
}

proof fn lemma_looks_like(i: int, word: Seq<char>)
    requires
        0 <= i < registry().len(),
        names(registry()[i], word),
    ensures
        looks_like(i, word),
{
    if i == 0 {
        reveal_strlit("cd");
        lemma_alias_single("cd"@);
    } else if i == 1 {
        reveal_strlit("quit");
        lemma_alias_single("quit"@);
    } else if i == 2 {
        reveal_strlit("write");
        lemma_alias_single("write"@);
    } else if i == 3 {
        reveal_strlit("open");
        lemma_alias_single("open"@);
    } else if i == 4 {
        reveal_strlit("buffer-close");
        lemma_alias_pair("buffer-close"@, 6);
    } else if i == 5 {
        reveal_strlit("view-close");
        lemma_alias_pair("view-close"@, 4);
    } else if i == 6 {
        reveal_strlit("buffer-switch");
        lemma_alias_pair("buffer-switch"@, 6);
    } else if i == 7 {
        reveal_strlit("buffer-list");
        lemma_alias_pair("buffer-list"@, 6);
    } else if i == 8 {
        reveal_strlit("split");
        lemma_alias_single("split"@);
    } else if i == 9 {
        reveal_strlit("split-horizontal");
        lemma_alias_pair("split-horizontal"@, 5);
    } else if i == 10 {
        reveal_strlit("split-vertical");
        lemma_alias_pair("split-vertical"@, 5);
    } else if i == 11 {
        reveal_strlit("pwd");
        lemma_alias_single("pwd"@);
    }
}

/// No word names two commands.
pub proof fn law_names_distinct(word: Seq<char>, i: int, j: int)
    requires
        0 <= i < registry().len(),
        0 <= j < registry().len(),
        names(registry()[i], word),
        names(registry()[j], word),
    ensures
        i == j,
{
    lemma_looks_like(i, word);
    lemma_looks_like(j, word);
}

/// No two commands share an alias.
pub proof fn law_aliases_distinct()
    ensures
        forall|i: int, j: int| !collide(registry(), i, j),
{
    assert forall|i: int, j: int| !collide(registry(), i, j) by {
        if collide(registry(), i, j) {
            law_names_distinct(alias_of(registry()[i].name), i, j);
        }
    }
}

// ---- reading a command

pub enum ArgVal {
    FilePath(String),
    DirectoryPath(String),
    BufferIndex(usize),
}

#[verifier::ext_equal]
pub enum ArgValView {
    FilePath(Seq<char>),
    DirectoryPath(Seq<char>),
    BufferIndex(usize),
}

impl View for ArgVal {
    type V = ArgValView;

    open spec fn view(&self) -> ArgValView {
        match *self {
            ArgVal::FilePath(s) => ArgValView::FilePath(s@),
            ArgVal::DirectoryPath(s) => ArgValView::DirectoryPath(s@),
            ArgVal::BufferIndex(i) => ArgValView::BufferIndex(i),
        }
    }
}

/// A command with its argument, forced or not.
pub struct CmdVal {
    pub cmd: Cmd,
    pub argument: Option<ArgVal>,
    pub force: bool,
}

#[verifier::ext_equal]
pub struct CmdValView {
    pub cmd: Cmd,
    pub argument: Option<ArgValView>,
    pub force: bool,
}

pub open spec fn option_arg(a: Option<ArgVal>) -> Option<ArgValView> {
    match a {
        Some(a) => Some(a@),
        None => None,
    }
}

impl View for CmdVal {
    type V = CmdValView;

    open spec fn view(&self) -> CmdValView {
        CmdValView { cmd: self.cmd, argument: option_arg(self.argument), force: self.force }
    }
}

/// The word without the exclamation mark that forces a command.
pub open spec fn unforced(word: Seq<char>) -> Seq<char> {
    if is_forced(word) {
        word.drop_last()
    } else {
        word
    }
}

pub open spec fn is_forced(word: Seq<char>) -> bool {
    word.len() > 0 && word.last() == '!'
}

/// The command that a word names.
pub open spec fn lookup(word: Seq<char>) -> Option<CmdSpecView> {
    if exists|i: int| 0 <= i < registry().len() && names(registry()[i], word) {
        Some(registry()[choose|i: int| 0 <= i < registry().len() && names(registry()[i], word)])
    } else {
        None
    }
}

/// The argument of a command, from the word behind it.
pub open spec fn read_argument(c: CmdSpecView, word: Option<Seq<char>>) -> Result<
    Option<ArgValView>,
    Seq<char>,
> {
    match c.arg {
        None => Ok(None),
        Some(arg) => match word {
            None => if arg.required {
                Err("command "@ + c.name + " requires arg but None was provided"@)
            } else {
                Ok(None)
            },
            Some(a) => match arg.kind {
                ArgKind::BufferIndex => match strings::read_number(a) {
                    Some(num) => Ok(Some(ArgValView::BufferIndex(num))),
                    None => Err(
                        "argument was not provided or was of wrong type or was of wrong type"@,
                    ),
                },
                ArgKind::FilePath => Ok(Some(ArgValView::FilePath(a))),
                ArgKind::DirectoryPath => Ok(Some(ArgValView::DirectoryPath(a))),
            },
        },
    }
}

/// The command that the words of a line spell, or what is wrong with it.
pub open spec fn read_words(words: Seq<Seq<char>>) -> Result<CmdValView, Seq<char>> {
    if words.len() == 0 {
        Err("command is empty"@)
    } else {
        let force = is_forced(words[0]);
        let word = unforced(words[0]);
        match lookup(word) {
            None => Err(word + " is not a command nor command alias"@),
            Some(c) => if force && !c.forcable {
                Err(c.name + " is not forcable"@)
            } else {
                match read_argument(
                    c,
                    if words.len() > 1 {
                        Some(words[1])
                    } else {
                        None
                    },
                ) {
                    Ok(argument) => Ok(CmdValView { cmd: c.cmd, argument, force }),
                    Err(e) => Err(e),
                }
            },
        }
    }
}

pub open spec fn read_line(s: Seq<char>) -> Result<CmdValView, Seq<char>> {
    read_words(strings::words(s))
}

/// The command that a word names.
pub fn find_command(word: &str) -> (res: Option<CmdSpec>)
    ensures
        match res {
            Some(c) => lookup(word@) == Some(c@),
            None => lookup(word@) is None,
        },
{
    let specs: Vec<CmdSpec> = command_registery();
    let mut i: usize = 0;
    while i < specs.len()
        invariant
            i <= specs@.len(),
            spec_views(specs@) == registry(),
            specs@.len() == registry().len(),
            forall|k: int| 0 <= k < i ==> !names(#[trigger] registry()[k], word@),
        decreases specs@.len() - i,
    {
        let c: CmdSpec = specs[i];
        assert(registry()[i as int] == c@);
        if same(c.name, word) || same(alias(c.name).as_str(), word) {
            proof {
                assert(names(registry()[i as int], word@));
                let k = choose|k: int| 0 <= k < registry().len() && names(registry()[k], word@);
                law_names_distinct(word@, i as int, k);
            }
            return Some(c);
        }
        i = i + 1;
    }
    None
}

/// Whether two strings hold the same characters.
pub fn same(a: &str, b: &str) -> (res: bool)
    ensures
        res == (a@ == b@),
{
    a.to_string() == b.to_string()
}

/// A word without the mark that forces a command, and whether it had one.
pub fn drop_force(word: &str) -> (res: (String, bool))
    ensures
        res.0@ == unforced(word@),
        res.1 == is_forced(word@),
{
    let chars: Vec<char> = strings::chars_of(word);
    let n: usize = chars.len();
    if n > 0 && chars[n - 1] == '!' {
        let s: String = strings::string_of(&chars, 0, n - 1);
        assert(s@ =~= word@.drop_last());
        (s, true)
    } else {
        (word.to_string(), false)
    }
}

fn parse_argument(c: &CmdSpec, word: Option<&String>) -> (res: Result<Option<ArgVal>, String>)
    ensures
        match res {
            Ok(a) => read_argument(
                c@,
                match word {
                    Some(w) => Some(w@),
                    None => None,
                },
            ) == Ok::<Option<ArgValView>, Seq<char>>(option_arg(a)),
            Err(e) => read_argument(
                c@,
                match word {
                    Some(w) => Some(w@),
                    None => None,
                },
            ) == Err::<Option<ArgValView>, Seq<char>>(e@),
        },
{
    match c.arg {
        None => Ok(None),
        Some(arg) => match word {
            None => {
                if arg.required {
                    let mut e: String = "command ".to_string();
                    e.append(c.name);
                    e.append(" requires arg but None was provided");
                    Err(e)
                } else {
                    Ok(None)
                }
            },
            Some(a) => match arg.kind {
                ArgKind::BufferIndex => match strings::parse_number(a.as_str()) {
                    Some(num) => Ok(Some(ArgVal::BufferIndex(num))),
                    None => Err(
                        "argument was not provided or was of wrong type or was of wrong type".to_string(),
                    ),
                },
                ArgKind::FilePath => Ok(Some(ArgVal::FilePath(a.clone()))),
                ArgKind::DirectoryPath => Ok(Some(ArgVal::DirectoryPath(a.clone()))),
            },
        },
    }
}

/// Reads a line as a command.
pub fn parse_cmd(s: &String) -> (res: Result<CmdVal, String>)
    ensures
        match res {
            Ok(c) => read_line(s@) == Ok::<CmdValView, Seq<char>>(c@),
            Err(e) => read_line(s@) == Err::<CmdValView, Seq<char>>(e@),
        },
{
    let parts: Vec<String> = strings::split_words(s.as_str());
    let ghost words = strings::words(s@);
    assert(parts@.len() == words.len());
    if parts.len() == 0 {
        return Err("command is empty".to_string());
    }
    assert(parts@[0]@ == words[0]);
    let (word, force) = drop_force(parts[0].as_str());
    let c: CmdSpec = match find_command(word.as_str()) {
        Some(c) => c,
        None => {
            let mut e: String = word;
            e.append(" is not a command nor command alias");
            return Err(e);
        },
    };
    if force && !c.forcable {
        let mut e: String = c.name.to_string();
        e.append(" is not forcable");
        return Err(e);
    }
    let second: Option<&String> = if parts.len() > 1 {
        assert(parts@[1]@ == words[1]);
        Some(&parts[1])
    } else {
        None
    };
    match parse_argument(&c, second) {
        Ok(argument) => Ok(CmdVal { cmd: c.cmd, argument, force }),
        Err(e) => Err(e),
    }
}

/// A command is the same under its name and under its alias, forced or not,
/// whatever follows.
pub proof fn law_alias_reads(i: int, forced: bool, rest: Seq<Seq<char>>)
    requires
        0 <= i < registry().len(),
    ensures
        ({
            let mark = if forced {
                seq!['!']
            } else {
                Seq::empty()
            };
            let name = registry()[i].name;
            let words = seq![name + mark] + rest;
            let short = seq![alias_of(name) + mark] + rest;
            &&& read_words(words) == read_words(short)
            &&& lookup(name) == Some(registry()[i])
        }),
{
    let mark = if forced {
        seq!['!']
    } else {
        Seq::empty()
    };
    let name = registry()[i].name;
    let words = seq![name + mark] + rest;
    let short = seq![alias_of(name) + mark] + rest;
    lemma_lookup(name, i);
    lemma_lookup(alias_of(name), i);
    lemma_no_mark(i);
    assert(words[0] == name + mark);
    assert(short[0] == alias_of(name) + mark);
    if forced {
        assert((name + mark).drop_last() =~= name);
        assert((alias_of(name) + mark).drop_last() =~= alias_of(name));
    } else {
        assert(name + mark =~= name);
        assert(alias_of(name) + mark =~= alias_of(name));
    }
    if rest.len() > 0 {
        assert(words[1] == rest[0]);
        assert(short[1] == rest[0]);
    }
}

pub proof fn lemma_lookup(word: Seq<char>, i: int)
    requires
        0 <= i < registry().len(),
        names(registry()[i], word),
    ensures
        lookup(word) == Some(registry()[i]),
{
    let j = choose|j: int| 0 <= j < registry().len() && names(registry()[j], word);
    law_names_distinct(word, i, j);
}

/// Neither a name nor an alias ends with the mark of force.
pub proof fn lemma_no_mark(i: int)
    requires
        0 <= i < registry().len(),
    ensures
        !is_forced(registry()[i].name),
        !is_forced(alias_of(registry()[i].name)),
{
    if i == 0 {
        reveal_strlit("cd");
        lemma_alias_single("cd"@);
    } else if i == 1 {
        reveal_strlit("quit");
        lemma_alias_single("quit"@);
    } else if i == 2 {
        reveal_strlit("write");
        lemma_alias_single("write"@);
    } else if i == 3 {
        reveal_strlit("open");
        lemma_alias_single("open"@);
    } else if i == 4 {
        reveal_strlit("buffer-close");
        lemma_alias_pair("buffer-close"@, 6);
    } else if i == 5 {
        reveal_strlit("view-close");
        lemma_alias_pair("view-close"@, 4);
    } else if i == 6 {
        reveal_strlit("buffer-switch");
        lemma_alias_pair("buffer-switch"@, 6);
    } else if i == 7 {
        reveal_strlit("buffer-list");
        lemma_alias_pair("buffer-list"@, 6);
    } else if i == 8 {
        reveal_strlit("split");
        lemma_alias_single("split"@);
    } else if i == 9 {
        reveal_strlit("split-horizontal");
        lemma_alias_pair("split-horizontal"@, 5);
    } else if i == 10 {
        reveal_strlit("split-vertical");
        lemma_alias_pair("split-vertical"@, 5);
    } else if i == 11 {
        reveal_strlit("pwd");
        lemma_alias_single("pwd"@);
    }
}

} // verus!
