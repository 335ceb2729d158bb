use argue::{app, ArgParser, Argument, ArgumentType, BuildOutcome};

fn tokens(v: &[&str]) -> Vec<String> {
    v.iter().map(|s| s.to_string()).collect()
}

fn parsed<'a>(outcome: BuildOutcome<'a>) -> ArgParser<'a> {
    match outcome {
        BuildOutcome::Parsed(p) => p,
        other => panic!("expected a parsed outcome, got {:?}", other),
    }
}

#[test]
fn obligatory_paired_given() {
    let args = [Argument::new(ArgumentType::Paired(true), &["-j", "--jthreads"], "Threads")];
    let p = parsed(app("t").arguments(&args).build(&tokens(&["-j", "12"])));
    assert_eq!(p.get("-j"), Some("12".to_string()));
    assert!(p.is_there("-j"));
}

#[test]
fn paired_and_flag_together() {
    let args = [
        Argument::new(ArgumentType::Paired(false), &["-j"], "Threads"),
        Argument::new(ArgumentType::Single(false), &["-M"], "Upper"),
    ];
    let p = parsed(app("t").arguments(&args).build(&tokens(&["-j", "5", "-M"])));
    assert_eq!(p.get("-j"), Some("5".to_string()));
    assert!(p.is_there("-M"));
}

#[test]
fn obligatory_missing_fails() {
    let args = [Argument::new(ArgumentType::Paired(true), &["-j"], "Threads")];
    let out = app("t").description("d").arguments(&args).build(&tokens(&[]));
    match out {
        BuildOutcome::MissingObligatoryArgument(text) => {
            assert_eq!(text, "t: d\n    -j\n        Threads\n");
        }
        other => panic!("expected a failed build, got {:?}", other),
    }
}

#[test]
fn flag_alone_present_under_every_name() {
    let args = [Argument::new(ArgumentType::Single(false), &["-M", "--mayus"], "Upper")];
    let p = parsed(app("t").arguments(&args).build(&tokens(&["--mayus"])));
    assert!(p.is_there("-M"));
    assert!(p.is_there("--mayus"));
    assert_eq!(p.get("-M"), None);
    assert_eq!(p.get("--mayus"), None);
}

#[test]
fn paired_value_under_every_name() {
    let args = [Argument::new(ArgumentType::Paired(false), &["-j", "--jthreads"], "Threads")];
    let p = parsed(app("t").arguments(&args).build(&tokens(&["--jthreads", "8"])));
    assert_eq!(p.get("-j"), Some("8".to_string()));
    assert_eq!(p.get("--jthreads"), Some("8".to_string()));
}

#[test]
fn trailing_key_gives_nothing() {
    let args = [Argument::new(ArgumentType::Paired(false), &["-j"], "Threads")];
    let p = parsed(app("t").arguments(&args).build(&tokens(&["x", "-j"])));
    assert!(!p.is_there("-j"));
    assert_eq!(p.get("-j"), None);
}

#[test]
fn paired_key_before_dashed_token_gives_nothing() {
    let args = [Argument::new(ArgumentType::Paired(false), &["-j"], "Threads")];
    let p = parsed(app("t").arguments(&args).build(&tokens(&["-j", "-x"])));
    assert!(!p.is_there("-j"));
    let p = parsed(app("t").arguments(&args).build(&tokens(&["-j", "a=b"])));
    assert!(!p.is_there("-j"));
}

#[test]
fn equaled_matches_on_key_side() {
    let args = [Argument::new(ArgumentType::Equaled(false), &["--name", "-n"], "Name")];
    let p = parsed(app("t").arguments(&args).build(&tokens(&["--name=joseph"])));
    assert_eq!(p.get("--name"), Some("joseph".to_string()));
    assert_eq!(p.get("-n"), Some("joseph".to_string()));
    assert!(p.is_there("-n"));
}

#[test]
fn equaled_value_side_does_not_match() {
    let args = [Argument::new(ArgumentType::Equaled(false), &["--name"], "Name")];
    let p = parsed(app("t").arguments(&args).build(&tokens(&["--other=--name"])));
    assert!(!p.is_there("--name"));
    assert_eq!(p.get("--name"), None);
}

#[test]
fn equaled_splits_at_first_equals() {
    let args = [Argument::new(ArgumentType::Equaled(false), &["--expr"], "Expr")];
    let p = parsed(app("t").arguments(&args).build(&tokens(&["--expr=a=b"])));
    assert_eq!(p.get("--expr"), Some("a=b".to_string()));
}

#[test]
fn equaled_empty_value_is_malformed() {
    let args = [Argument::new(ArgumentType::Equaled(false), &["--name"], "Name")];
    let p = parsed(app("t").arguments(&args).build(&tokens(&["--name="])));
    assert_eq!(p.get("--name"), None);
    assert!(!p.is_there("--name"));
}

#[test]
fn equaled_bare_dash_key() {
    let args = [Argument::new(ArgumentType::Equaled(false), &["-"], "Dash")];
    let p = parsed(app("t").arguments(&args).build(&tokens(&["-=x"])));
    assert_eq!(p.get("-"), Some("x".to_string()));
    assert!(p.is_there("-"));
}

#[test]
fn obligatory_equaled_bare_dash_key_succeeds() {
    let args = [Argument::new(ArgumentType::Equaled(true), &["-"], "Dash")];
    let p = parsed(app("t").arguments(&args).build(&tokens(&["-=x"])));
    assert_eq!(p.get("-"), Some("x".to_string()));
}

#[test]
fn obligatory_equaled_empty_value_fails() {
    let args = [Argument::new(ArgumentType::Equaled(true), &["--name"], "Name")];
    let out = app("t").arguments(&args).build(&tokens(&["--name="]));
    assert!(matches!(out, BuildOutcome::MissingObligatoryArgument(_)));
}

#[test]
fn malformed_equals_tokens_do_not_panic() {
    let args = [
        Argument::new(ArgumentType::Equaled(false), &["--name"], "Name"),
        Argument::new(ArgumentType::Single(false), &["-"], "Dash"),
    ];
    let p = parsed(app("t").arguments(&args).build(&tokens(&["=", "-=", "=x", "-"])));
    assert_eq!(p.get("--name"), None);
    assert!(!p.is_there("--name"));
    assert!(p.is_there("-"));
}

#[test]
fn equaled_token_is_no_flag() {
    let args = [Argument::new(ArgumentType::Single(false), &["-x=1"], "Odd")];
    let p = parsed(app("t").arguments(&args).build(&tokens(&["-x=1"])));
    assert!(!p.is_there("-x=1"));
}

#[test]
fn flag_shaped_declaration_gives_no_value() {
    let args = [Argument::new(ArgumentType::Single(false), &["-v2"], "Flag")];
    let p = parsed(app("t").arguments(&args).build(&tokens(&["-v2", "5"])));
    assert!(p.is_there("-v2"));
    assert_eq!(p.get("-v2"), None);
}

#[test]
fn unknown_key_is_absent() {
    let args = [Argument::new(ArgumentType::Paired(false), &["-j"], "Threads")];
    let p = parsed(app("t").arguments(&args).build(&tokens(&["-j", "3"])));
    assert_eq!(p.get("-k"), None);
    assert!(!p.is_there("-k"));
    assert!(!p.is_there("3"));
}

#[test]
fn first_occurrence_wins() {
    let args = [Argument::new(ArgumentType::Paired(false), &["-j", "--jthreads"], "Threads")];
    let p = parsed(app("t").arguments(&args).build(&tokens(&["--jthreads", "2", "-j", "7"])));
    assert_eq!(p.get("-j"), Some("2".to_string()));
}

#[test]
fn names_match_exactly() {
    let args = [Argument::new(ArgumentType::Single(false), &["-j"], "J")];
    let p = parsed(app("t").arguments(&args).build(&tokens(&["-jthreads", "-J"])));
    assert!(!p.is_there("-j"));
}

#[test]
fn queries_repeat_the_same_answer() {
    let args = [
        Argument::new(ArgumentType::Paired(false), &["-j"], "Threads"),
        Argument::new(ArgumentType::Single(false), &["-M"], "Upper"),
    ];
    let p = parsed(app("t").arguments(&args).build(&tokens(&["-j", "4", "-M"])));
    for _ in 0..3 {
        assert_eq!(p.get("-j"), Some("4".to_string()));
        assert!(p.is_there("-M"));
        assert_eq!(p.get("-M"), None);
    }
}

#[test]
fn obligatory_flag_satisfied() {
    let args = [Argument::new(ArgumentType::Single(true), &["-q"], "Quiet")];
    let p = parsed(app("t").arguments(&args).build(&tokens(&["-q"])));
    assert!(p.is_there("-q"));
}

#[test]
fn obligatory_equaled_missing_without_description() {
    let args = [Argument::new(ArgumentType::Equaled(true), &["--name"], "Name")];
    let out = app("t").arguments(&args).build(&tokens(&["--name", "x"]));
    match out {
        BuildOutcome::MissingObligatoryArgument(text) => {
            assert_eq!(text, "t\n    --name\n        Name\n")
        }
        other => panic!("expected a failed build, got {:?}", other),
    }
}

#[test]
fn no_declarations_parse_anything() {
    let p = parsed(app("t").build(&tokens(&["-a", "b", "--c=d"])));
    assert_eq!(p.get("-a"), None);
    assert!(!p.is_there("-a"));
}

#[test]
fn help_requested() {
    let args = [
        Argument::new(ArgumentType::Paired(true), &["-j", "--jthreads"], "Set the number of threads"),
        Argument::new(ArgumentType::Single(false), &["-M", "-Mayus"], "Print the message in Upper"),
    ];
    let out = app("Example0")
        .description("An example of the arg parser")
        .version("0.0.1")
        .arguments(&args)
        .build(&tokens(&["--help"]));
    let expected = "Example0: An example of the arg parser\n    -j, --jthreads\n        Set the number of threads\n    -M, -Mayus\n        Print the message in Upper\n";
    match out {
        BuildOutcome::HelpRequested(text) => assert_eq!(text, expected),
        other => panic!("expected help, got {:?}", other),
    }
}

#[test]
fn help_wins_over_version() {
    let out = app("t").description("d").version("1").arguments(&[]).build(&tokens(&["-v", "-h"]));
    match out {
        BuildOutcome::HelpRequested(text) => assert_eq!(text, "t: d\n"),
        other => panic!("expected help, got {:?}", other),
    }
}

#[test]
fn version_requested() {
    let out = app("t").description("d").version("0.0.1").build(&tokens(&["x", "--version"]));
    match out {
        BuildOutcome::VersionRequested(text) => {
            assert_eq!(text, Some("t: d\nVersion: 0.0.1".to_string()))
        }
        other => panic!("expected version, got {:?}", other),
    }
}

#[test]
fn help_without_description() {
    let out = app("t").build(&tokens(&["-h"]));
    match out {
        BuildOutcome::HelpRequested(text) => assert_eq!(text, "t\n"),
        other => panic!("expected help, got {:?}", other),
    }
}

#[test]
fn version_short_flag_and_missing_version() {
    let out = app("t").description("d").build(&tokens(&["-v"]));
    match out {
        BuildOutcome::VersionRequested(text) => assert_eq!(text, None),
        other => panic!("expected version, got {:?}", other),
    }
}

#[test]
fn old_version_spelling_is_no_trigger() {
    let p = parsed(app("t").description("d").version("1").build(&tokens(&["--v"])));
    assert_eq!(p.version(), Some("t: d\nVersion: 1".to_string()));
}

#[test]
fn help_and_version_text_of_parser() {
    let args = [Argument::new(ArgumentType::Equaled(false), &["--name"], "Name")];
    let p = parsed(app("t").description("d").version("2").arguments(&args).build(&tokens(&[])));
    assert_eq!(p.help(), "t: d\n    --name\n        Name\n");
    assert_eq!(p.version(), Some("t: d\nVersion: 2".to_string()));
    let q = parsed(app("t").build(&tokens(&[])));
    assert_eq!(q.help(), "t\n");
    assert_eq!(q.version(), None);
    let r = parsed(app("t").version("3").build(&tokens(&[])));
    assert_eq!(r.version(), Some("t\nVersion: 3".to_string()));
}

#[test]
fn input_and_output_are_not_filled() {
    let p = parsed(app("t").input(true).output(true).build(&tokens(&["a", "b"])));
    assert_eq!(p.get_input(), None);
    assert_eq!(p.get_output(), None);
}

#[test]
fn builder_new_matches_app() {
    let args = [Argument::new(ArgumentType::Single(false), &["-x"], "X")];
    let p = parsed(argue::ArgParserBuilder::new("t").arguments(&args).build(&tokens(&["-x"])));
    assert!(p.is_there("-x"));
}

#[test]
fn argument_type_equality() {
    assert_eq!(ArgumentType::Paired(true), ArgumentType::Paired(true));
    assert_ne!(ArgumentType::Paired(true), ArgumentType::Paired(false));
    assert_ne!(ArgumentType::Single(true), ArgumentType::Equaled(true));
}
