//! Command-line arguments.
use vstd::prelude::*;

use crate::model::{RuleSet, rules_from_text};
use crate::text::{chars_of, text_eq};

verus! {

/// What to lint and how.
#[derive(Debug)]
pub struct Cli {
    pub paths: Vec<String>,
    pub stdin_filename: String,
    pub threads: Option<usize>,
    pub max_diagnostics: usize,
    pub rules: RuleSet,
}

/// What the command line asks for.
#[derive(Debug)]
pub enum CliAction {
    Run(Cli),
    Help,
    Version,
}

/// A command line, by the views of its parts; `rules` is the mask of the rule set.
pub struct CliView {
    pub paths: Seq<Seq<char>>,
    pub stdin_filename: Seq<char>,
    pub threads: Option<usize>,
    pub max_diagnostics: usize,
    pub rules: u8,
}

/// What parsing a command line comes to.
pub enum ParseOutcome {
    Run(CliView),
    Help,
    Version,
    Failed(Seq<char>),
}

/// Whether `c` is an ASCII decimal digit.
pub open spec fn is_digit(c: char) -> bool {
    '0' <= c <= '9'
}

/// The number that a string of decimal digits writes.
pub open spec fn digits_value(digits: Seq<char>) -> int
    decreases digits.len(),
{
    if digits.len() == 0 {
        0
    } else {
        digits_value(digits.drop_last()) * 10 + (digits.last() as int - '0' as int)
    }
}

/// The text after an optional leading `+`.
pub open spec fn unsigned_part(s: Seq<char>) -> Seq<char> {
    if s.len() > 0 && s[0] == '+' {
        s.drop_first()
    } else {
        s
    }
}

/// Whether every character of `digits` is an ASCII decimal digit.
pub open spec fn all_digits(digits: Seq<char>) -> bool {
    forall|i: int| 0 <= i < digits.len() ==> is_digit(#[trigger] digits[i])
}

/// What `str::parse::<usize>` gives for `s`: an optional `+` and at least one decimal digit,
/// whose value fits in a `usize`; anything else is refused.
pub open spec fn usize_from_text(s: Seq<char>) -> Option<usize> {
    let digits = unsigned_part(s);
    if digits.len() > 0 && all_digits(digits) && digits_value(digits) <= usize::MAX {
        Some(digits_value(digits) as usize)
    } else {
        None
    }
}

/// A longer run of digits is worth at least as much as each of its prefixes.
proof fn lemma_digits_value_prefix(digits: Seq<char>, j: int)
    requires
        0 <= j <= digits.len(),
        forall|i: int| 0 <= i < digits.len() ==> is_digit(#[trigger] digits[i]),
    ensures
        0 <= digits_value(digits.take(j)) <= digits_value(digits),
    decreases digits.len(),
{
    if digits.len() > 0 {
        let rest = digits.drop_last();
        assert(is_digit(digits[digits.len() - 1]));
        if j == digits.len() {
            assert(digits.take(j) =~= digits);
            lemma_digits_value_prefix(rest, rest.len() as int);
            assert(rest.take(rest.len() as int) =~= rest);
        } else {
            assert(rest.take(j) =~= digits.take(j));
            lemma_digits_value_prefix(rest, j);
        }
    } else {
        assert(digits.take(j) =~= digits);
    }
}

/// Text whose digits include something else, or are worth more than a `usize` holds, is
/// refused.
proof fn lemma_refused_digits(s: Seq<char>, digits: Seq<char>, k: int)
    requires
        digits == unsigned_part(s),
        0 <= k < digits.len(),
        !is_digit(digits[k]) || digits_value(digits.take(k + 1)) > usize::MAX,
    ensures
        usize_from_text(s) is None,
{
    if all_digits(digits) {
        assert(is_digit(digits[k]));
        lemma_digits_value_prefix(digits, k + 1);
    }
}

/// Parses a decimal `usize` as `str::parse::<usize>` does: an optional `+` followed by one or
/// more ASCII digits whose value fits; `None` for any other text.
fn parse_usize(s: &str) -> (r: Option<usize>)
    ensures
        r == usize_from_text(s@),
{
    let chars = chars_of(s);
    let start: usize = if chars.len() > 0 && chars[0] == '+' {
        1
    } else {
        0
    };
    let ghost digits = chars@.subrange(start as int, chars@.len() as int);
    assert(digits == unsigned_part(s@));
    if start == chars.len() {
        return None;
    }
    let mut value: usize = 0;
    let mut i: usize = start;
    while i < chars.len()
        invariant
            chars@ == s@,
            digits == unsigned_part(s@),
            start < chars@.len(),
            start <= i <= chars@.len(),
            digits == chars@.subrange(start as int, chars@.len() as int),
            forall|k: int| 0 <= k < i - start ==> is_digit(#[trigger] digits[k]),
            value == digits_value(digits.take(i - start)),
        decreases chars@.len() - i,
    {
        let c = chars[i];
        assert(digits[i - start] == c);
        if !('0' <= c && c <= '9') {
            proof {
                lemma_refused_digits(s@, digits, i - start);
            }
            return None;
        }
        let d: usize = (c as u32 - '0' as u32) as usize;
        assert(digits.take(i - start + 1).drop_last() =~= digits.take(i - start));
        assert(digits_value(digits.take(i - start + 1)) == value * 10 + d);
        if value > (usize::MAX - d) / 10 {
            assert(value * 10 + d > usize::MAX) by (nonlinear_arith)
                requires
                    value > (usize::MAX - d) / 10,
                    d <= 9,
            ;
            proof {
                lemma_refused_digits(s@, digits, i - start);
            }
            return None;
        }
        assert(value * 10 + d <= usize::MAX) by (nonlinear_arith)
            requires
                value <= (usize::MAX - d) / 10,
                d <= 9,
        ;
        value = value * 10 + d;
        i = i + 1;
    }
    assert(digits.take(digits.len() as int) =~= digits);
    Some(value)
}

/// How many of `paths` name standard input.
pub open spec fn stdin_count(paths: Seq<Seq<char>>) -> nat
    decreases paths.len(),
{
    if paths.len() == 0 {
        0
    } else {
        stdin_count(paths.drop_last()) + if paths.last() == "-"@ {
            1nat
        } else {
            0nat
        }
    }
}

/// The settings before any argument is read.
pub open spec fn default_cli() -> CliView {
    CliView {
        paths: seq![],
        stdin_filename: "<stdin>"@,
        threads: None,
        max_diagnostics: 1000,
        rules: RuleSet::ALL_MASK,
    }
}

/// The end of parsing: no path means standard input, which may be named only once.
pub open spec fn finish_parse(st: CliView) -> ParseOutcome {
    let paths = if st.paths.len() == 0 {
        seq!["-"@]
    } else {
        st.paths
    };
    if stdin_count(paths) > 1 {
        ParseOutcome::Failed("stdin may be specified only once"@)
    } else {
        ParseOutcome::Run(CliView { paths, ..st })
    }
}

/// Parsing from argument `i` on, with the settings `st` read so far.
pub open spec fn parse_args_from(args: Seq<Seq<char>>, i: int, st: CliView) -> ParseOutcome
    decreases args.len() - i,
{
    if i < 0 || i >= args.len() {
        finish_parse(st)
    } else {
        let arg = args[i];
        let has_value = i + 1 < args.len();
        if arg == "--help"@ || arg == "-h"@ {
            ParseOutcome::Help
        } else if arg == "--version"@ || arg == "-V"@ {
            ParseOutcome::Version
        } else if arg == "--stdin-filename"@ {
            if has_value {
                parse_args_from(args, i + 2, CliView { stdin_filename: args[i + 1], ..st })
            } else {
                ParseOutcome::Failed("--stdin-filename requires a value"@)
            }
        } else if arg == "--threads"@ || arg == "-j"@ {
            if !has_value {
                ParseOutcome::Failed("--threads requires a value"@)
            } else {
                match usize_from_text(args[i + 1]) {
                    Some(n) => if n == 0 {
                        ParseOutcome::Failed("--threads requires a positive integer"@)
                    } else {
                        parse_args_from(args, i + 2, CliView { threads: Some(n), ..st })
                    },
                    None => ParseOutcome::Failed("--threads requires a positive integer"@),
                }
            }
        } else if arg == "--max-diagnostics"@ {
            if !has_value {
                ParseOutcome::Failed("--max-diagnostics requires a value"@)
            } else {
                match usize_from_text(args[i + 1]) {
                    Some(n) => parse_args_from(args, i + 2, CliView { max_diagnostics: n, ..st }),
                    None => ParseOutcome::Failed(
                        "--max-diagnostics requires a non-negative integer"@,
                    ),
                }
            }
        } else if arg == "--rules"@ {
            if !has_value {
                ParseOutcome::Failed("--rules requires a value"@)
            } else {
                match rules_from_text(args[i + 1]) {
                    Ok(mask) => parse_args_from(args, i + 2, CliView { rules: mask, ..st }),
                    Err(e) => ParseOutcome::Failed(e),
                }
            }
        } else if arg == "--"@ {
            finish_parse(CliView { paths: st.paths + args.subrange(i + 1, args.len() as int), ..st })
        } else if arg == "-"@ {
            parse_args_from(args, i + 1, CliView { paths: st.paths.push("-"@), ..st })
        } else if arg.len() > 0 && arg[0] == '-' {
            ParseOutcome::Failed("unknown option: "@ + arg)
        } else {
            parse_args_from(args, i + 1, CliView { paths: st.paths.push(arg), ..st })
        }
    }
}

/// What a whole command line means; its first argument is the program's name.
pub open spec fn parse_command_line(args: Seq<Seq<char>>) -> ParseOutcome {
    parse_args_from(args, 1, default_cli())
}

/// The views of a sequence of strings.
pub open spec fn texts(args: Seq<String>) -> Seq<Seq<char>> {
    args.map_values(|a: String| a@)
}

/// The view of parsed settings.
pub open spec fn cli_view(cli: Cli) -> CliView {
    CliView {
        paths: texts(cli.paths@),
        stdin_filename: cli.stdin_filename@,
        threads: cli.threads,
        max_diagnostics: cli.max_diagnostics,
        rules: cli.rules.mask(),
    }
}

/// The value that follows an option, or the message that it is missing.
fn next_value(args: &Vec<String>, i: usize, option: &str) -> (r: Result<String, String>)
    ensures
        match r {
            Ok(v) => i < args@.len() && v@ == args@[i as int]@,
            Err(e) => i >= args@.len() && e@ == option@ + " requires a value"@,
        },
{
    if i < args.len() {
        Ok(args[i].clone())
    } else {
        let mut message = option.to_owned();
        message.append(" requires a value");
        Err(message)
    }
}

impl Cli {
    /// Parses the command line; the first argument is the program's name.
    pub fn parse(args: Vec<String>) -> (r: Result<CliAction, String>)
        ensures
            match r {
                Ok(CliAction::Run(cli)) => parse_command_line(texts(args@)) == ParseOutcome::Run(
                    cli_view(cli),
                ),
                Ok(CliAction::Help) => parse_command_line(texts(args@)) == ParseOutcome::Help,
                Ok(CliAction::Version) => parse_command_line(texts(args@))
                    == ParseOutcome::Version,
                Err(e) => parse_command_line(texts(args@)) == ParseOutcome::Failed(e@),
            },
    {
        let ghost view = texts(args@);
        let mut paths: Vec<String> = Vec::new();
        let mut stdin_filename = "<stdin>".to_owned();
        let mut threads: Option<usize> = None;
        let mut max_diagnostics: usize = 1000;
        let mut rules = RuleSet::all();
        let mut i: usize = 1;
        assert(texts(paths@) =~= seq![]);
        while i < args.len()
            invariant
                view == texts(args@),
                1 <= i,
                parse_command_line(view) == parse_args_from(
                    view,
                    i as int,
                    CliView {
                        paths: texts(paths@),
                        stdin_filename: stdin_filename@,
                        threads,
                        max_diagnostics,
                        rules: rules.mask(),
                    },
                ),
            decreases args@.len() - i,
        {
            let arg = args[i].as_str();
            if text_eq(arg, "--help") || text_eq(arg, "-h") {
                return Ok(CliAction::Help);
            } else if text_eq(arg, "--version") || text_eq(arg, "-V") {
                return Ok(CliAction::Version);
            } else if text_eq(arg, "--stdin-filename") {
                match next_value(&args, i + 1, "--stdin-filename") {
                    Ok(value) => {
                        stdin_filename = value;
                    },
                    Err(e) => {
                        proof {
                            reveal_strlit("--stdin-filename");
                            reveal_strlit(" requires a value");
                            reveal_strlit("--stdin-filename requires a value");
                            assert(e@ =~= "--stdin-filename requires a value"@);
                        }
                        return Err(e);
                    },
                }
                i = i + 2;
            } else if text_eq(arg, "--threads") || text_eq(arg, "-j") {
                let value = match next_value(&args, i + 1, "--threads") {
                    Ok(value) => value,
                    Err(e) => {
                        proof {
                            reveal_strlit("--threads");
                            reveal_strlit(" requires a value");
                            reveal_strlit("--threads requires a value");
                            assert(e@ =~= "--threads requires a value"@);
                        }
                        return Err(e);
                    },
                };
                match parse_usize(value.as_str()) {
                    Some(parsed) => {
                        if parsed == 0 {
                            return Err("--threads requires a positive integer".to_owned());
                        }
                        threads = Some(parsed);
                    },
                    None => {
                        return Err("--threads requires a positive integer".to_owned());
                    },
                }
                i = i + 2;
            } else if text_eq(arg, "--max-diagnostics") {
                let value = match next_value(&args, i + 1, "--max-diagnostics") {
                    Ok(value) => value,
                    Err(e) => {
                        proof {
                            reveal_strlit("--max-diagnostics");
                            reveal_strlit(" requires a value");
                            reveal_strlit("--max-diagnostics requires a value");
                            assert(e@ =~= "--max-diagnostics requires a value"@);
                        }
                        return Err(e);
                    },
                };
                match parse_usize(value.as_str()) {
                    Some(parsed) => {
                        max_diagnostics = parsed;
                    },
                    None => {
                        return Err("--max-diagnostics requires a non-negative integer".to_owned());
                    },
                }
                i = i + 2;
            } else if text_eq(arg, "--rules") {
                let value = match next_value(&args, i + 1, "--rules") {
                    Ok(value) => value,
                    Err(e) => {
                        proof {
                            reveal_strlit("--rules");
                            reveal_strlit(" requires a value");
                            reveal_strlit("--rules requires a value");
                            assert(e@ =~= "--rules requires a value"@);
                        }
                        return Err(e);
                    },
                };
                match RuleSet::parse(value.as_str()) {
                    Ok(parsed) => {
                        rules = parsed;
                    },
                    Err(e) => {
                        return Err(e);
                    },
                }
                i = i + 2;
            } else if text_eq(arg, "--") {
                let ghost old_paths = texts(paths@);
                let mut j: usize = i + 1;
                while j < args.len()
                    invariant
                        view == texts(args@),
                        i + 1 <= j <= args@.len(),
                        texts(paths@) == old_paths + view.subrange(i + 1, j as int),
                    decreases args@.len() - j,
                {
                    let ghost before = paths@;
                    paths.push(args[j].clone());
                    assert(texts(paths@) =~= texts(before).push(view[j as int]));
                    assert(texts(paths@) =~= old_paths + view.subrange(i + 1, j + 1));
                    j = j + 1;
                }
                i = args.len();
            } else if text_eq(arg, "-") {
                let ghost before = paths@;
                paths.push("-".to_owned());
                assert(texts(paths@) =~= texts(before).push("-"@));
                i = i + 1;
            } else if !arg.is_empty() && arg.get_char(0) == '-' {
                let mut message = "unknown option: ".to_owned();
                message.append(arg);
                return Err(message);
            } else {
                let ghost before = paths@;
                paths.push(args[i].clone());
                assert(texts(paths@) =~= texts(before).push(view[i as int]));
                i = i + 1;
            }
        }
        let ghost settled = CliView {
            paths: texts(paths@),
            stdin_filename: stdin_filename@,
            threads,
            max_diagnostics,
            rules: rules.mask(),
        };
        assert(parse_command_line(view) == finish_parse(settled));
        if paths.len() == 0 {
            paths.push("-".to_owned());
            assert(texts(paths@) =~= seq!["-"@]);
        }
        let mut stdin_paths: usize = 0;
        let mut k: usize = 0;
        while k < paths.len()
            invariant
                k <= paths@.len(),
                stdin_paths == stdin_count(texts(paths@).take(k as int)),
                stdin_paths <= k,
            decreases paths@.len() - k,
        {
            assert(texts(paths@).take(k + 1).drop_last() =~= texts(paths@).take(k as int));
            if text_eq(paths[k].as_str(), "-") {
                stdin_paths = stdin_paths + 1;
            }
            k = k + 1;
        }
        assert(texts(paths@).take(k as int) =~= texts(paths@));
        if stdin_paths > 1 {
            return Err("stdin may be specified only once".to_owned());
        }
        Ok(CliAction::Run(Cli { paths, stdin_filename, threads, max_diagnostics, rules }))
    }
}


/// Every way that parsing from argument `i` can succeed goes through `finish_parse`.
proof fn lemma_run_paths(args: Seq<Seq<char>>, i: int, st: CliView)
    ensures
        parse_args_from(args, i, st) matches ParseOutcome::Run(cli) ==> cli.paths.len() >= 1
            && stdin_count(cli.paths) <= 1,
    decreases args.len() - i,
{
    let single: Seq<Seq<char>> = seq!["-"@];
    assert(single.drop_last() =~= Seq::<Seq<char>>::empty());
    assert(single.last() == "-"@);
    assert(stdin_count(single.drop_last()) == 0);
    assert(stdin_count(single) == 1);
    if 0 <= i < args.len() {
        lemma_run_paths(args, i + 1, CliView { paths: st.paths.push("-"@), ..st });
        lemma_run_paths(args, i + 1, CliView { paths: st.paths.push(args[i]), ..st });
    }
    if 0 <= i && i + 1 < args.len() {
        let v = args[i + 1];
        lemma_run_paths(args, i + 2, CliView { stdin_filename: v, ..st });
        if let Some(n) = usize_from_text(v) {
            lemma_run_paths(args, i + 2, CliView { threads: Some(n), ..st });
            lemma_run_paths(args, i + 2, CliView { max_diagnostics: n, ..st });
        }
        if let Ok(mask) = rules_from_text(v) {
            lemma_run_paths(args, i + 2, CliView { rules: mask, ..st });
        }
    }
}

/// A parsed command line always names at least one input, and standard input at most once.
pub proof fn law_parsed_paths_name_stdin_at_most_once(args: Seq<Seq<char>>)
    ensures
        parse_command_line(args) matches ParseOutcome::Run(cli) ==> cli.paths.len() >= 1
            && stdin_count(cli.paths) <= 1,
{
    lemma_run_paths(args, 1, default_cli());
}

/// Whether `arg` names a path rather than an option: it is not empty and does not begin with
/// `-`.
pub open spec fn is_plain_path(arg: Seq<char>) -> bool {
    arg.len() > 0 && arg[0] != '-'
}

/// Whether `arg` is an option that takes the next argument as its value.
pub open spec fn takes_value(arg: Seq<char>) -> bool {
    arg == "--stdin-filename"@ || arg == "--threads"@ || arg == "-j"@ || arg
        == "--max-diagnostics"@ || arg == "--rules"@
}

/// Whether a block of arguments is one path (`-` for standard input), or one option followed
/// by its value.
pub open spec fn is_argument_block(block: Seq<Seq<char>>) -> bool {
    ||| block.len() == 1 && (is_plain_path(block[0]) || block[0] == "-"@)
    ||| block.len() == 2 && takes_value(block[0])
}

/// The paths that blocks of arguments name, in order.
pub open spec fn block_paths(blocks: Seq<Seq<Seq<char>>>) -> Seq<Seq<char>>
    decreases blocks.len(),
{
    if blocks.len() == 0 {
        seq![]
    } else if blocks[0].len() == 1 {
        seq![blocks[0][0]] + block_paths(blocks.drop_first())
    } else {
        block_paths(blocks.drop_first())
    }
}

/// The paths to lint: those named, or standard input when none is.
pub open spec fn or_stdin(paths: Seq<Seq<char>>) -> Seq<Seq<char>> {
    if paths.len() == 0 {
        seq!["-"@]
    } else {
        paths
    }
}

/// The option names that the parser knows, told apart from each other and from paths.
proof fn lemma_option_names()
    ensures
        "--help"@.len() > 0 && "--help"@[0] == '-',
        "-h"@.len() > 0 && "-h"@[0] == '-',
        "--version"@.len() > 0 && "--version"@[0] == '-',
        "-V"@.len() > 0 && "-V"@[0] == '-',
        "--stdin-filename"@.len() > 0 && "--stdin-filename"@[0] == '-',
        "--threads"@.len() > 0 && "--threads"@[0] == '-',
        "-j"@.len() > 0 && "-j"@[0] == '-',
        "--max-diagnostics"@.len() > 0 && "--max-diagnostics"@[0] == '-',
        "--rules"@.len() > 0 && "--rules"@[0] == '-',
        "--"@.len() > 0 && "--"@[0] == '-',
        "-"@.len() > 0 && "-"@[0] == '-',
        "--"@ != "-h"@,
        "--"@ != "-V"@,
        "--"@ != "--help"@,
        "--"@ != "--version"@,
        "-"@ != "-h"@,
        "-"@ != "-V"@,
        "-"@ != "--help"@,
        "-"@ != "--version"@,
        "-"@ != "--"@,
        !takes_value("--"@),
        !takes_value("-"@),
        forall|a: Seq<char>| #[trigger] takes_value(a) ==> a != "--help"@ && a != "-h"@ && a
            != "--version"@ && a != "-V"@ && a != "--"@ && a != "-"@,
        forall|a: Seq<char>| #[trigger] takes_value(a) ==> a.len() > 0 && a[0] == '-',
        forall|a: Seq<char>| #[trigger] takes_value(a) ==> {
            ||| a == "--stdin-filename"@ && a != "--threads"@ && a != "-j"@ && a
                != "--max-diagnostics"@ && a != "--rules"@
            ||| a == "--threads"@ && a != "--max-diagnostics"@ && a != "--rules"@
            ||| a == "-j"@ && a != "--threads"@ && a != "--max-diagnostics"@ && a != "--rules"@
            ||| a == "--max-diagnostics"@ && a != "--rules"@
            ||| a == "--rules"@
        },
{
    reveal_strlit("--help");
    reveal_strlit("-h");
    reveal_strlit("--version");
    reveal_strlit("-V");
    reveal_strlit("--stdin-filename");
    reveal_strlit("--threads");
    reveal_strlit("-j");
    reveal_strlit("--max-diagnostics");
    reveal_strlit("--rules");
    reveal_strlit("--");
    reveal_strlit("-");
    assert("--threads"@ != "--version"@) by {
        assert("--threads"@[2] != "--version"@[2]);
    }
    assert("-j"@ != "-h"@) by {
        assert("-j"@[1] != "-h"@[1]);
    }
    assert("-j"@ != "-V"@) by {
        assert("-j"@[1] != "-V"@[1]);
    }
    assert("-j"@ != "--"@) by {
        assert("-j"@[1] != "--"@[1]);
    }
    assert("--"@.len() == 2 && "-"@.len() == 1 && "--stdin-filename"@.len() == 16
        && "--threads"@.len() == 9 && "-j"@.len() == 2 && "--max-diagnostics"@.len() == 17
        && "--rules"@.len() == 7 && "--help"@.len() == 6 && "--version"@.len() == 9);
    assert("--"@ != "--help"@) by {
        assert("--"@.len() != "--help"@.len());
    }
    assert("--"@ != "--version"@) by {
        assert("--"@.len() != "--version"@.len());
    }
    assert("--"@ != "-h"@) by {
        assert("--"@[1] != "-h"@[1]);
    }
    assert("--"@ != "-V"@) by {
        assert("--"@[1] != "-V"@[1]);
    }
}

/// Parsing blocks of paths and options with their values from argument `i` on, then either
/// nothing or `--` and more arguments, adds the paths of the blocks, in order, to those read
/// so far, followed by the arguments after `--`.
proof fn lemma_block_paths(
    args: Seq<Seq<char>>,
    i: int,
    st: CliView,
    blocks: Seq<Seq<Seq<char>>>,
    rest: Seq<Seq<char>>,
    named: Seq<Seq<char>>,
)
    requires
        0 <= i <= args.len(),
        args.skip(i) == blocks.flatten() + rest,
        forall|k: int| 0 <= k < blocks.len() ==> is_argument_block(#[trigger] blocks[k]),
        rest.len() == 0 && named.len() == 0 || rest.len() > 0 && rest[0] == "--"@ && named
            == rest.skip(1),
    ensures
        parse_args_from(args, i, st) matches ParseOutcome::Run(cli) ==> cli.paths == or_stdin(
            st.paths + (block_paths(blocks) + named),
        ),
    decreases blocks.len(),
{
    lemma_option_names();
    reveal_strlit("-");
    reveal_strlit("--");
    if blocks.len() == 0 {
        assert(args.skip(i) =~= rest);
        if rest.len() == 0 {
            assert(st.paths + (block_paths(blocks) + named) =~= st.paths);
        } else {
            assert(args[i] == rest[0]);
            assert(args.subrange(i + 1, args.len() as int) =~= named);
            assert(st.paths + (block_paths(blocks) + named) =~= st.paths + named);
        }
    } else {
        let b = blocks[0];
        let others = blocks.drop_first();
        assert(is_argument_block(blocks[0]));
        assert forall|k: int| 0 <= k < others.len() implies is_argument_block(
            #[trigger] others[k],
        ) by {
            assert(others[k] == blocks[k + 1]);
        }
        assert(blocks.flatten() == b + others.flatten());
        assert(args.skip(i) =~= b + (others.flatten() + rest));
        assert(args[i] == args.skip(i)[0]);
        assert(args[i] == b[0]);
        if b.len() == 1 {
            assert(args.skip(i + 1) =~= (b + (others.flatten() + rest)).skip(1));
            assert((b + (others.flatten() + rest)).skip(1) =~= others.flatten() + rest);
            let next = CliView { paths: st.paths.push(b[0]), ..st };
            lemma_block_paths(args, i + 1, next, others, rest, named);
            assert(next.paths + (block_paths(others) + named) =~= st.paths + (block_paths(blocks)
                + named));
        } else {
            assert(args[i + 1] == args.skip(i)[1]);
            assert(args.skip(i + 2) =~= (b + (others.flatten() + rest)).skip(2));
            assert((b + (others.flatten() + rest)).skip(2) =~= others.flatten() + rest);
            assert(block_paths(blocks) == block_paths(others));
            let v = args[i + 1];
            lemma_block_paths(args, i + 2, CliView { stdin_filename: v, ..st }, others, rest, named);
            if let Some(n) = usize_from_text(v) {
                lemma_block_paths(args, i + 2, CliView { threads: Some(n), ..st }, others, rest, named);
                lemma_block_paths(
                    args,
                    i + 2,
                    CliView { max_diagnostics: n, ..st },
                    others,
                    rest,
                    named,
                );
            }
            if let Ok(mask) = rules_from_text(v) {
                lemma_block_paths(args, i + 2, CliView { rules: mask, ..st }, others, rest, named);
            }
        }
    }
}

/// Every path of a command line made of paths and of options with their values is linted,
/// in the order given, and so is every argument after `--`: the paths of a run are exactly
/// the path arguments, followed by those after `--`, or standard input when there is none.
pub proof fn law_paths_kept_in_order(
    program: Seq<char>,
    blocks: Seq<Seq<Seq<char>>>,
    after_separator: Option<Seq<Seq<char>>>,
)
    requires
        forall|k: int| 0 <= k < blocks.len() ==> is_argument_block(#[trigger] blocks[k]),
    ensures
        parse_command_line(
            seq![program] + blocks.flatten() + match after_separator {
                Some(tail) => seq!["--"@] + tail,
                None => seq![],
            },
        ) matches ParseOutcome::Run(cli) ==> cli.paths == or_stdin(
            block_paths(blocks) + match after_separator {
                Some(tail) => tail,
                None => seq![],
            },
        ),
{
    let rest: Seq<Seq<char>> = match after_separator {
        Some(tail) => seq!["--"@] + tail,
        None => seq![],
    };
    let named: Seq<Seq<char>> = match after_separator {
        Some(tail) => tail,
        None => seq![],
    };
    let args = seq![program] + blocks.flatten() + rest;
    assert(args.skip(1) =~= blocks.flatten() + rest);
    if let Some(tail) = after_separator {
        assert(rest[0] == "--"@);
        assert(rest.skip(1) =~= named);
    }
    lemma_block_paths(args, 1, default_cli(), blocks, rest, named);
    assert(default_cli().paths + (block_paths(blocks) + named) =~= block_paths(blocks) + named);
}

/// Paths that name no standard input count none.
proof fn lemma_plain_paths_no_stdin(paths: Seq<Seq<char>>)
    requires
        forall|k: int| 0 <= k < paths.len() ==> is_plain_path(#[trigger] paths[k]),
    ensures
        stdin_count(paths) == 0,
    decreases paths.len(),
{
    reveal_strlit("-");
    if paths.len() > 0 {
        assert(is_plain_path(paths[paths.len() - 1]));
        lemma_plain_paths_no_stdin(paths.drop_last());
    }
}

/// Reading path arguments from `i` on adds all of them, in order, to the paths so far.
proof fn lemma_all_paths_from(args: Seq<Seq<char>>, i: int, st: CliView)
    requires
        1 <= i <= args.len(),
        forall|k: int| 1 <= k < args.len() ==> is_plain_path(#[trigger] args[k]),
    ensures
        parse_args_from(args, i, st) == finish_parse(
            CliView { paths: st.paths + args.skip(i), ..st },
        ),
    decreases args.len() - i,
{
    lemma_option_names();
    if i == args.len() {
        assert(st.paths + args.skip(i) =~= st.paths);
    } else {
        assert(is_plain_path(args[i]));
        lemma_all_paths_from(args, i + 1, CliView { paths: st.paths.push(args[i]), ..st });
        assert(st.paths.push(args[i]) + args.skip(i + 1) =~= st.paths + args.skip(i));
    }
}

/// A command line of paths alone runs with the default settings over exactly those paths, in
/// order, or over standard input when there is none.
pub proof fn law_path_only_command_line(args: Seq<Seq<char>>)
    requires
        args.len() >= 1,
        forall|k: int| 1 <= k < args.len() ==> is_plain_path(#[trigger] args[k]),
    ensures
        parse_command_line(args) == ParseOutcome::Run(
            CliView { paths: or_stdin(args.skip(1)), ..default_cli() },
        ),
{
    reveal_strlit("-");
    lemma_all_paths_from(args, 1, default_cli());
    assert(default_cli().paths + args.skip(1) =~= args.skip(1));
    assert forall|k: int| 0 <= k < args.skip(1).len() implies is_plain_path(
        #[trigger] args.skip(1)[k],
    ) by {
        assert(args.skip(1)[k] == args[k + 1]);
    }
    lemma_plain_paths_no_stdin(args.skip(1));
    let single: Seq<Seq<char>> = seq!["-"@];
    assert(single.drop_last() =~= Seq::<Seq<char>>::empty());
    assert(single.last() == "-"@);
    assert(stdin_count(single.drop_last()) == 0);
    assert(stdin_count(single) == 1);
}

} // verus!
