use notebox::cmd::{
    arg_cmd_names, parse_command, simple_cmd_names, special_cmd_chars, ArgCmd, Command, SimpleCmd,
    SpecialCmd,
};

#[test]
fn whole_line_commands_are_recognised() {
    assert_eq!(parse_command("reload"), Command::Simple(SimpleCmd::Reload));
    assert_eq!(parse_command("exit"), Command::Simple(SimpleCmd::Exit));
    assert_eq!(parse_command("quit"), Command::Simple(SimpleCmd::Exit));
    assert_eq!(parse_command("h"), Command::Simple(SimpleCmd::Help));
    assert_eq!(parse_command("help"), Command::Simple(SimpleCmd::Help));
    assert_eq!(parse_command("l"), Command::Simple(SimpleCmd::List));
    assert_eq!(parse_command("list"), Command::Simple(SimpleCmd::List));
    assert_eq!(parse_command("lbl"), Command::Simple(SimpleCmd::Lbl));
    assert_eq!(parse_command("lbls"), Command::Simple(SimpleCmd::Lbls));
    assert_eq!(parse_command("dir"), Command::Simple(SimpleCmd::Dir));
    assert_eq!(parse_command("e"), Command::Simple(SimpleCmd::Edit));
    assert_eq!(parse_command("edit"), Command::Simple(SimpleCmd::Edit));
    assert_eq!(parse_command("reset"), Command::Simple(SimpleCmd::Reset));
    assert_eq!(parse_command("+"), Command::Simple(SimpleCmd::LblAdd));
    assert_eq!(parse_command("-"), Command::Simple(SimpleCmd::LblRemove));
    assert_eq!(parse_command(""), Command::Simple(SimpleCmd::Noop));
    assert_eq!(parse_command("recent"), Command::Simple(SimpleCmd::Recent));
    assert_eq!(parse_command("del"), Command::Simple(SimpleCmd::Del));
    assert_eq!(parse_command("all"), Command::Simple(SimpleCmd::All));
    assert_eq!(parse_command("deselect"), Command::Simple(SimpleCmd::Deselect));
    assert_eq!(parse_command("cat"), Command::Simple(SimpleCmd::Cat));
}

#[test]
fn first_character_commands_take_the_rest() {
    assert_eq!(parse_command("/abc"), Command::Special(SpecialCmd::Glob));
    assert_eq!(parse_command("+work"), Command::Special(SpecialCmd::Plus));
    assert_eq!(parse_command("-work"), Command::Special(SpecialCmd::Minus));
    // A leading special character wins over a command word.
    assert_eq!(parse_command("-lbl x"), Command::Special(SpecialCmd::Minus));
}

#[test]
fn commands_with_an_argument_start_after_the_first_space() {
    assert_eq!(parse_command("lbl foo"), Command::WithArg(ArgCmd::Lbl, 4));
    assert_eq!(parse_command("lbls fo"), Command::WithArg(ArgCmd::Lbls, 5));
    assert_eq!(parse_command("where size > 3"), Command::WithArg(ArgCmd::Where, 6));
    assert_eq!(parse_command("new a/b"), Command::WithArg(ArgCmd::New, 4));
    assert_eq!(parse_command("dir x"), Command::WithArg(ArgCmd::Dir, 4));
    assert_eq!(parse_command("like y"), Command::WithArg(ArgCmd::Like, 5));
    assert_eq!(parse_command("lbl "), Command::WithArg(ArgCmd::Lbl, 4));
    assert_eq!(parse_command("nope x"), Command::Unknown);
}

#[test]
fn digit_lines_are_indexes() {
    assert_eq!(parse_command("0"), Command::Index(Some(0)));
    assert_eq!(parse_command("12"), Command::Index(Some(12)));
    assert_eq!(parse_command("007"), Command::Index(Some(7)));
    assert_eq!(
        parse_command("999999999999999999999999999"),
        Command::Index(None)
    );
    assert_eq!(parse_command("12a"), Command::Unknown);
    assert_eq!(parse_command("whatever"), Command::Unknown);
}

#[test]
fn help_lists_are_sorted_and_complete() {
    let s = simple_cmd_names();
    assert_eq!(s.len(), 21);
    assert_eq!(s[0], "");
    assert_eq!(s[1], "+");
    assert_eq!(s[2], "-");
    assert_eq!(s[3], "all");
    assert_eq!(s[20], "reset");
    for w in s.windows(2) {
        assert!(w[0] < w[1]);
    }
    let a = arg_cmd_names();
    assert_eq!(a, vec!["dir", "lbl", "lbls", "like", "new", "where"]);
    assert_eq!(special_cmd_chars(), vec!['+', '-', '/']);
}
