use agent_html_lint::cli::{Cli, CliAction};
use agent_html_lint::model::RuleSet;

fn args(values: &[&str]) -> Vec<String> {
    values.iter().map(|value| value.to_string()).collect()
}

#[test]
fn defaults_to_stdin() {
    let CliAction::Run(cli) = Cli::parse(args(&["html-lint"])).unwrap() else {
        panic!("expected run action")
    };
    assert_eq!(cli.paths, vec!["-".to_string()]);
}

#[test]
fn parses_agent_options() {
    let args = args(&[
        "html-lint",
        "--rules",
        "common",
        "--threads",
        "3",
        "page.html",
    ]);
    let CliAction::Run(cli) = Cli::parse(args).unwrap() else {
        panic!("expected run action")
    };
    assert_eq!(cli.threads, Some(3));
    assert_eq!(cli.rules, RuleSet::common());
}

#[test]
fn empty_command_line_defaults_to_stdin() {
    let CliAction::Run(cli) = Cli::parse(Vec::new()).unwrap() else {
        panic!("expected run action")
    };
    assert_eq!(cli.paths, vec!["-".to_string()]);
    assert_eq!(cli.stdin_filename, "<stdin>");
    assert_eq!(cli.threads, None);
    assert_eq!(cli.max_diagnostics, 1000);
    assert_eq!(cli.rules, RuleSet::all());
}

#[test]
fn help_and_version_win_over_later_arguments() {
    assert!(matches!(Cli::parse(args(&["x", "-h", "--bogus"])), Ok(CliAction::Help)));
    assert!(matches!(Cli::parse(args(&["x", "--help"])), Ok(CliAction::Help)));
    assert!(matches!(Cli::parse(args(&["x", "-V"])), Ok(CliAction::Version)));
    assert!(matches!(Cli::parse(args(&["x", "--version"])), Ok(CliAction::Version)));
}

#[test]
fn options_take_values() {
    let CliAction::Run(cli) = Cli::parse(args(&[
        "x",
        "--stdin-filename",
        "piped.html",
        "-j",
        "+8",
        "--max-diagnostics",
        "0",
        "--rules",
        "img-alt,parse-error",
        "a.html",
        "-",
    ]))
    .unwrap() else {
        panic!("expected run action")
    };
    assert_eq!(cli.stdin_filename, "piped.html");
    assert_eq!(cli.threads, Some(8));
    assert_eq!(cli.max_diagnostics, 0);
    assert_eq!(cli.rules, RuleSet::parse("img-alt,parse-error").unwrap());
    assert_eq!(cli.paths, args(&["a.html", "-"]));
}

#[test]
fn double_dash_takes_the_rest_as_paths() {
    let CliAction::Run(cli) = Cli::parse(args(&["x", "a.html", "--", "--help", "-z"])).unwrap()
    else {
        panic!("expected run action")
    };
    assert_eq!(cli.paths, args(&["a.html", "--help", "-z"]));
}

#[test]
fn reports_each_argument_error() {
    let error = |values: &[&str]| Cli::parse(args(values)).unwrap_err();
    assert_eq!(error(&["x", "--threads"]), "--threads requires a value");
    assert_eq!(error(&["x", "-j", "0"]), "--threads requires a positive integer");
    assert_eq!(error(&["x", "-j", "three"]), "--threads requires a positive integer");
    assert_eq!(error(&["x", "--max-diagnostics", "-1"]), "--max-diagnostics requires a non-negative integer");
    assert_eq!(error(&["x", "--max-diagnostics"]), "--max-diagnostics requires a value");
    assert_eq!(error(&["x", "--stdin-filename"]), "--stdin-filename requires a value");
    assert_eq!(error(&["x", "--rules"]), "--rules requires a value");
    assert_eq!(error(&["x", "--rules", "img-alt,nope"]), "unknown rule: nope");
    assert_eq!(error(&["x", "--rules", ""]), "--rules cannot be empty");
    assert_eq!(error(&["x", "--frobnicate"]), "unknown option: --frobnicate");
    assert_eq!(error(&["x", "-", "-"]), "stdin may be specified only once");
    assert_eq!(error(&["x", "-", "--", "-"]), "stdin may be specified only once");
}

#[test]
fn numbers_follow_the_decimal_usize_grammar() {
    let max_diagnostics = |value: &str| match Cli::parse(args(&["x", "--max-diagnostics", value])) {
        Ok(CliAction::Run(cli)) => Ok(cli.max_diagnostics),
        Ok(_) => panic!("expected run action"),
        Err(error) => Err(error),
    };
    assert_eq!(max_diagnostics("0"), Ok(0));
    assert_eq!(max_diagnostics("+7"), Ok(7));
    assert_eq!(max_diagnostics("007"), Ok(7));
    assert_eq!(max_diagnostics(&usize::MAX.to_string()), Ok(usize::MAX));
    let refused = "--max-diagnostics requires a non-negative integer".to_string();
    let too_large = format!("{}0", usize::MAX);
    for value in ["", "+", "-0", "1_000", "0x10", " 1", "1 ", "١", too_large.as_str()] {
        assert_eq!(max_diagnostics(value), Err(refused.clone()), "{value:?}");
    }
}
