use marc::cli::{get_arg_specs_for, tokens_from_lines, Arg, ArgKind, CliError, CommandLine, ParseError, Subcommand};

fn tokens(v: &[&str]) -> Vec<String> {
    v.iter().map(|e| e.to_string()).collect()
}

fn opt(name: &str, value: &str) -> Arg {
    Arg::Option { name: name.to_string(), value: value.to_string() }
}

fn flag(name: &str) -> Arg {
    Arg::Flag(name.to_string())
}

fn value(v: &str) -> Arg {
    Arg::Value(v.to_string())
}

#[test]
fn get_args_long() {
    let input = tokens(&["marc", "add", "--tag", "test", "should work"]);
    let cmd_line = CommandLine::new(input);
    let crt_cmd_line = CommandLine {
        subcommand: Subcommand::Add,
        args: vec![opt("tag", "test"), value("should work")],
    };
    assert_eq!(cmd_line.unwrap(), crt_cmd_line);
}

#[test]
fn get_args_short() {
    let input = tokens(&["marc", "add", "-t", "test", "should work"]);
    let cmd_line = CommandLine::new(input);
    let crt_cmd_line = CommandLine {
        subcommand: Subcommand::Add,
        args: vec![opt("tag", "test"), value("should work")],
    };
    assert_eq!(cmd_line.unwrap(), crt_cmd_line);
}

#[test]
fn get_args_concatenated() {
    let input = tokens(&["marc", "log", "-ud"]);
    let cmd_line = CommandLine::new(input);
    let crt_cmd_line = CommandLine {
        subcommand: Subcommand::Log,
        args: vec![flag("undone"), flag("done")],
    };
    assert_eq!(cmd_line.unwrap(), crt_cmd_line);
}

#[test]
fn err_on_unknow_args() {
    let input = tokens(&["marc", "log", "--pippo"]);
    let cmd_line = CommandLine::new(input);
    assert!(cmd_line.is_err());
}

#[test]
fn err_on_missing_values() {
    let input = tokens(&["marc", "add", "--tag"]);
    let cmd_line = CommandLine::new(input);
    assert!(cmd_line.is_err());
}

#[test]
fn long_and_short_forms_agree() {
    let long = CommandLine::new(tokens(&["marc", "add", "--tag", "test", "should work"])).unwrap();
    let short = CommandLine::new(tokens(&["marc", "add", "-t", "test", "should work"])).unwrap();
    assert_eq!(long, short);
}

#[test]
fn parsing_twice_gives_the_same_result() {
    let input = tokens(&["marc", "log", "-ud", "--tag", "work", "extra"]);
    let first = CommandLine::new(input.clone());
    let second = CommandLine::new(input);
    assert_eq!(first, second);
    assert_eq!(
        first.unwrap().args,
        vec![flag("undone"), flag("done"), opt("tag", "work"), value("extra")]
    );
}

#[test]
fn unknown_long_switch_on_every_subcommand() {
    for sub in ["add", "log", "rm", "edit", "done", "help", "version"] {
        let r = CommandLine::new(tokens(&["marc", sub, "--pippo"]));
        match r {
            Err(CliError::UnknownArgument { arg, .. }) => assert_eq!(arg, "pippo"),
            other => panic!("unexpected {:?}", other),
        }
    }
}

#[test]
fn unknown_argument_names_the_subcommand() {
    let r = CommandLine::new(tokens(&["marc", "log", "--pippo"]));
    assert_eq!(
        r,
        Err(CliError::UnknownArgument { arg: "pippo".to_string(), subcommand: Subcommand::Log })
    );
}

#[test]
fn missing_value_names_the_switch() {
    assert_eq!(
        CommandLine::new(tokens(&["marc", "add", "--tag"])),
        Err(CliError::MissingValue("tag".to_string()))
    );
    assert_eq!(
        CommandLine::new(tokens(&["marc", "add", "-t"])),
        Err(CliError::MissingValue("t".to_string()))
    );
}

#[test]
fn unknown_short_switch() {
    assert_eq!(
        CommandLine::new(tokens(&["marc", "rm", "-x", "abc"])),
        Err(CliError::UnknownArgument { arg: "x".to_string(), subcommand: Subcommand::Remove })
    );
}

#[test]
fn option_in_a_cluster_takes_the_token_after_the_cluster() {
    let r = CommandLine::new(tokens(&["marc", "log", "-dt", "work", "-u"])).unwrap();
    assert_eq!(r.args, vec![flag("done"), opt("tag", "work"), flag("undone")]);
}

#[test]
fn every_subcommand_accepts_help() {
    for sub in ["add", "log", "rm", "edit", "done", "help", "version"] {
        let r = CommandLine::new(tokens(&["marc", sub, "--help", "-h"])).unwrap();
        assert_eq!(r.args, vec![flag("help"), flag("help")]);
    }
}

#[test]
fn lone_dash_and_double_dash() {
    let r = CommandLine::new(tokens(&["marc", "add", "-", "x"])).unwrap();
    assert_eq!(r.args, vec![value("x")]);
    assert_eq!(
        CommandLine::new(tokens(&["marc", "add", "--"])),
        Err(CliError::UnknownArgument { arg: String::new(), subcommand: Subcommand::Add })
    );
}

#[test]
fn command_line_without_subcommand() {
    assert_eq!(CommandLine::new(vec![]), Err(CliError::CommandNotFound));
    assert_eq!(CommandLine::new(tokens(&["marc"])), Err(CliError::InvalidUse));
    assert_eq!(
        CommandLine::new(tokens(&["marc", "frobnicate"])),
        Err(CliError::UnknownSubcommand("frobnicate".to_string()))
    );
}

#[test]
fn subcommand_names_ignore_case() {
    assert_eq!(Subcommand::from_str("ADD"), Some(Subcommand::Add));
    assert_eq!(Subcommand::from_str("Rm"), Some(Subcommand::Remove));
    assert_eq!(Subcommand::from_str("LOG"), Some(Subcommand::Log));
    assert_eq!(Subcommand::from_str("edit"), Some(Subcommand::Edit));
    assert_eq!(Subcommand::from_str("Done"), Some(Subcommand::Done));
    assert_eq!(Subcommand::from_str("--HELP"), Some(Subcommand::Help));
    assert_eq!(Subcommand::from_str("-h"), Some(Subcommand::Help));
    assert_eq!(Subcommand::from_str("help"), Some(Subcommand::Help));
    assert_eq!(Subcommand::from_str("--version"), Some(Subcommand::Version));
    assert_eq!(Subcommand::from_str("VERSION"), Some(Subcommand::Version));
    assert_eq!(Subcommand::from_str("v"), None);
    assert_eq!(Subcommand::from_str("remove"), None);
    assert_eq!(Subcommand::from_lowercase("ADD"), None);
    assert_eq!(Subcommand::from_lowercase("add"), Some(Subcommand::Add));
}

#[test]
fn switch_tables() {
    let log = get_arg_specs_for(Subcommand::Log);
    let names: Vec<&str> = log.iter().map(|s| s.name.as_str()).collect();
    assert_eq!(names, vec!["tag", "done", "undone", "help"]);
    assert_eq!(log[0].short, 't');
    assert_eq!(log[0].kind, ArgKind::Option);
    assert_eq!(log[2].long, "undone");
    assert_eq!(get_arg_specs_for(Subcommand::Edit).len(), 1);
}

#[test]
fn parse_args_against_a_table() {
    let specs = get_arg_specs_for(Subcommand::Add);
    let r = CommandLine::parse_args(tokens(&["a", "-t", "x", "b"]), &specs);
    assert_eq!(r, Ok(vec![value("a"), opt("tag", "x"), value("b")]));
    let r = CommandLine::parse_args(tokens(&["--done"]), &specs);
    assert_eq!(r, Err(ParseError::UnknownArg("done".to_string())));
}

#[test]
fn option_and_flag_lookup() {
    let args = vec![value("a"), opt("tag", "one"), flag("done"), opt("tag", "two")];
    assert_eq!(Arg::get_option(&args, &"tag".to_string()), Some("one".to_string()));
    assert_eq!(Arg::get_option(&args, &"done".to_string()), None);
    assert!(Arg::get_flag(&args, &"done".to_string()));
    assert!(!Arg::get_flag(&args, &"tag".to_string()));
}

#[test]
fn piped_lines_become_tokens() {
    let lines = tokens(&["  first  ", "", "   ", "second\t"]);
    assert_eq!(tokens_from_lines(&lines), tokens(&["first", "second"]));
}
