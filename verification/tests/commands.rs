use modal_editor::commands::{
    alias, check_alias_collison, command_registery, drop_force, find_alias_collision,
    find_command, parse_cmd, ArgVal, Cmd, CmdSpec,
};
use modal_editor::strings::{parse_number, split_words, to_decimal};

fn parsed(s: &str) -> Result<(Cmd, Option<String>, bool), String> {
    parse_cmd(&s.to_string()).map(|c| {
        let arg = c.argument.map(|a| match a {
            ArgVal::FilePath(p) => format!("file {p}"),
            ArgVal::DirectoryPath(p) => format!("directory {p}"),
            ArgVal::BufferIndex(i) => format!("buffer {i}"),
        });
        (c.cmd, arg, c.force)
    })
}

fn failure(s: &str) -> String {
    match parsed(s) {
        Ok(_) => panic!("accepted: {s}"),
        Err(e) => e,
    }
}

fn success(s: &str) -> (Cmd, Option<String>, bool) {
    match parsed(s) {
        Ok(c) => c,
        Err(e) => panic!("{e}"),
    }
}

#[test]
fn an_alias_is_the_first_letters() {
    assert_eq!(alias("quit"), "q");
    assert_eq!(alias("buffer-switch"), "bs");
    assert_eq!(alias("split-horizontal"), "sh");
    assert_eq!(alias("a--b"), "ab");
    assert_eq!(alias(""), "");
}

#[test]
fn there_are_twelve_commands_with_distinct_aliases() {
    let specs = command_registery();
    let aliases: Vec<String> = specs.iter().map(|s| alias(s.name)).collect();
    assert_eq!(
        aliases,
        vec!["c", "q", "w", "o", "bc", "vc", "bs", "bl", "s", "sh", "sv", "p"]
    );
    assert!(check_alias_collison().is_none());
}

#[test]
fn a_collision_is_found() {
    let mut specs = command_registery();
    specs.push(CmdSpec {
        name: "cut",
        arg: None,
        forcable: false,
        cmd: Cmd::Pwd,
    });
    assert_eq!(find_alias_collision(&specs), Some((0, 12)));
}

#[test]
fn a_command_goes_by_its_name_or_its_alias() {
    assert!(success("view-close") == (Cmd::ViewClose, None, false));
    assert!(success("vc") == (Cmd::ViewClose, None, false));
    assert!(success("  sv  ") == (Cmd::SplitV, None, false));
    assert!(success("pwd") == (Cmd::Pwd, None, false));
    assert!(find_command("bl").is_some());
    assert!(find_command("blub").is_none());
}

#[test]
fn a_command_takes_its_argument() {
    assert!(success("w") == (Cmd::Save, None, false));
    assert!(success("w a.txt") == (Cmd::Save, Some("file a.txt".to_string()), false));
    assert!(success("cd src") == (Cmd::Cd, Some("directory src".to_string()), false));
    assert!(success("bs 12 7") == (Cmd::BufferSwitch, Some("buffer 12".to_string()), false));
    assert!(success("pwd there") == (Cmd::Pwd, None, false));
}

#[test]
fn a_command_can_be_forced() {
    assert!(success("q!") == (Cmd::Quit, None, true));
    assert!(success("buffer-close! 3") == (Cmd::BufferClose, Some("buffer 3".to_string()), true));
    assert!(drop_force("q!!") == ("q!".to_string(), true));
    assert!(drop_force("q") == ("q".to_string(), false));
}

#[test]
fn what_is_no_command_is_told() {
    assert_eq!(failure(""), "command is empty");
    assert_eq!(failure("  \t "), "command is empty");
    assert_eq!(failure("nope"), "nope is not a command nor command alias");
    assert_eq!(failure("!"), " is not a command nor command alias");
    assert_eq!(failure("w!"), "write is not forcable");
    assert_eq!(
        failure("cd"),
        "command cd requires arg but None was provided"
    );
    assert_eq!(
        failure("bs"),
        "command buffer-switch requires arg but None was provided"
    );
    assert_eq!(
        failure("bs x"),
        "argument was not provided or was of wrong type or was of wrong type"
    );
    assert_eq!(
        failure("bs -1"),
        "argument was not provided or was of wrong type or was of wrong type"
    );
}

#[test]
fn words_are_split_at_white_space() {
    assert_eq!(split_words(" a\u{a0}b\tc\u{3000}\u{2003}d\u{85}e\u{200b}f\n"), vec![
        "a", "b", "c", "d", "e\u{200b}f"
    ]);
    assert!(split_words("").is_empty());
}

#[test]
fn numbers_are_read_and_written() {
    assert_eq!(to_decimal(0), "0");
    assert_eq!(to_decimal(9070), "9070");
    assert_eq!(to_decimal(usize::MAX), format!("{}", usize::MAX));
    assert_eq!(parse_number("007"), Some(7));
    assert_eq!(parse_number("+5"), Some(5));
    assert_eq!(parse_number(""), None);
    assert_eq!(parse_number("+"), None);
    assert_eq!(parse_number("-5"), None);
    assert_eq!(parse_number("1a"), None);
    assert_eq!(parse_number(&to_decimal(usize::MAX)), Some(usize::MAX));
    assert_eq!(parse_number("99999999999999999999999999"), None);
}

#[test]
fn an_alias_reads_as_the_name_does() {
    for spec in command_registery() {
        let name = spec.name;
        let short = alias(name);
        for rest in ["", " 3", " a b"] {
            for mark in ["", "!"] {
                let long = parsed(&format!("{name}{mark}{rest}"));
                let brief = parsed(&format!("{short}{mark}{rest}"));
                assert!(long == brief);
            }
        }
        assert!(find_command(name).is_some_and(|c| c.cmd == spec.cmd));
    }
}

#[test]
fn a_number_written_out_is_read_again() {
    for n in [0, 1, 9, 10, 99, 100, 65535, usize::MAX - 1] {
        assert_eq!(parse_number(&to_decimal(n)), Some(n));
    }
}
