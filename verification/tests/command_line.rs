use gitingest::args::{
    failure_report, is_final, parse_args, parse_patterns, usage, Args, ArgsError, Invocation, PatternType,
};
use gitingest::text::{is_space_char, parse_number, to_decimal, trim_chars, NumberError};

fn strings(args: &[&str]) -> Vec<String> {
    args.iter().map(|s| s.to_string()).collect()
}

fn run(args: &[&str]) -> Args {
    match parse_args(&strings(args)) {
        Ok(Invocation::Run(args)) => args,
        other => panic!("not accepted: {:?}", other),
    }
}

fn refusal(args: &[&str]) -> String {
    match parse_args(&strings(args)) {
        Err(e) => e.message(),
        other => panic!("not refused: {:?}", other),
    }
}

#[test]
fn repository_alone_gives_defaults() {
    let args = run(&["rust-lang/rust"]);
    assert_eq!(args.repo, "rust-lang/rust");
    assert_eq!(args.token, None);
    assert_eq!(args.pattern_type, PatternType::Exclude);
    assert!(args.patterns.is_empty());
    assert_eq!(args.max_file_size_kb, 50);
}

#[test]
fn all_options_are_read() {
    let args = run(&[
        "--token", "abc", "--include", "*.rs, src/ ,,", "a/b", "--max-size", "+7",
    ]);
    assert_eq!(args.repo, "a/b");
    assert_eq!(args.token, Some("abc".to_string()));
    assert_eq!(args.pattern_type, PatternType::Include);
    assert_eq!(args.patterns, strings(&["*.rs", "src/", "", ""]));
    assert_eq!(args.max_file_size_kb, 7);
}

#[test]
fn last_filter_counts() {
    let args = run(&["a/b", "--include", "x", "--exclude", "y"]);
    assert_eq!(args.pattern_type, PatternType::Exclude);
    assert_eq!(args.patterns, strings(&["y"]));
    let args = run(&["a/b", "--exclude", "y", "--include", "x"]);
    assert_eq!(args.pattern_type, PatternType::Include);
    assert_eq!(args.patterns, strings(&["x"]));
}

#[test]
fn empty_arguments() {
    assert_eq!(run(&[""]).repo, "");
    assert_eq!(run(&["a/b", "--include", ""]).patterns, strings(&[""]));
    assert_eq!(run(&["a/b", "--token", ""]).token, Some(String::new()));
}

#[test]
fn option_takes_next_argument_whatever_it_is() {
    let args = run(&["a/b", "--token", "--help"]);
    assert_eq!(args.token, Some("--help".to_string()));
}

#[test]
fn help_ends_the_reading() {
    for args in [&["-h"][..], &["--help"], &["a/b", "-h", "--nonsense"]] {
        assert!(matches!(parse_args(&strings(args)), Ok(Invocation::Help)));
    }
    assert_eq!(refusal(&["--nonsense", "-h"]), "Unknown or misplaced argument: --nonsense");
}

#[test]
fn some_command_lines_are_decided_whatever_follows() {
    let decided = [&["-h"][..], &["a", "b"], &["-x"], &["--max-size", "x"], &["a", "--help"]];
    for start in decided {
        let result = parse_args(&strings(start));
        assert!(is_final(&result));
        let mut longer = start.to_vec();
        longer.push("--token");
        assert_eq!(format!("{:?}", parse_args(&strings(&longer))), format!("{:?}", result));
    }
    let open = [&[][..], &["a"], &["--token"], &["--max-size"], &["--include"], &["--exclude"]];
    for start in open {
        assert!(!is_final(&parse_args(&strings(start))));
    }
}

#[test]
fn refusals_have_messages() {
    assert_eq!(refusal(&["a/b", "--token"]), "Expected a token after --token");
    assert_eq!(refusal(&["a/b", "--max-size"]), "Expected a size in KB after --max-size");
    assert_eq!(refusal(&["a/b", "--include"]), "Expected patterns after --include");
    assert_eq!(refusal(&["a/b", "--exclude"]), "Expected patterns after --exclude");
    assert_eq!(refusal(&["a/b", "c/d"]), "Unknown or misplaced argument: c/d");
    assert_eq!(refusal(&["-x"]), "Unknown or misplaced argument: -x");
    assert_eq!(refusal(&[]), "Missing required repository argument <user/repo>");
    assert_eq!(
        refusal(&["--max-size", "5"]),
        "Missing required repository argument <user/repo>"
    );
}

#[test]
fn numbers_are_read_as_by_the_standard_library() {
    let inputs = [
        "", "0", "1", "007", "+5", "++5", "+", "-", "-5", "5 ", " 5", "1_0", "12a", "a12", "٣",
        "18446744073709551615", "18446744073709551616", "18446744073709551620",
        "99999999999999999999999", "99999999999999999999999x", "1844674407370955161x",
        "000000000000000000000000000009", "+18446744073709551615", "5+", "é",
    ];
    for input in inputs {
        let expected = input.parse::<u64>();
        match parse_number(input) {
            Ok(n) => assert_eq!(expected, Ok(n), "{}", input),
            Err(e) => {
                let text = expected.unwrap_err().to_string();
                assert_eq!(ArgsError::InvalidSize(e).message(), text, "{}", input);
                if input.is_empty() {
                    assert_eq!(refusal(&["a/b", "--max-size", input]), text);
                }
            }
        }
    }
    assert_eq!(parse_number(""), Err(NumberError::Empty));
    assert_eq!(parse_number("x"), Err(NumberError::InvalidDigit));
    assert_eq!(parse_number("18446744073709551616"), Err(NumberError::TooLarge));
}

#[test]
fn numbers_are_written_as_by_the_standard_library() {
    for n in [0u128, 9, 10, 11, 99, 100, 1024, u64::MAX as u128, u128::MAX] {
        assert_eq!(to_decimal(n), n.to_string());
    }
}

#[test]
fn numbers_are_read_back() {
    for n in [0u64, 1, 50, 1000, u64::MAX] {
        assert_eq!(parse_number(&to_decimal(n as u128)), Ok(n));
    }
}

#[test]
fn white_space_is_that_of_the_standard_library() {
    for code in 0..=0x10ffffu32 {
        if let Some(c) = char::from_u32(code) {
            assert_eq!(is_space_char(c), c.is_whitespace(), "{:x}", code);
        }
    }
}

#[test]
fn trimming_is_that_of_the_standard_library() {
    for s in ["", " ", "a", " a ", "\t a b \u{3000}\n", "\u{a0}x", "x\u{2028}", "  \r\n "] {
        let chars: Vec<char> = s.chars().collect();
        assert_eq!(trim_chars(&chars), s.trim());
    }
}

#[test]
fn pattern_lists_are_split_at_commas() {
    for s in ["", ",", "a", "a,b", " a , b ", ",,a", "a,", "é, ü"] {
        let expected: Vec<String> = s.split(',').map(|p| p.trim().to_string()).collect();
        assert_eq!(parse_patterns(s), expected);
    }
}

#[test]
fn usage_tells_the_default_size() {
    assert_eq!(
        usage(),
        "Gitingest - A tool to create a prompt-friendly text digest of a GitHub repository.

USAGE:
    gitingest <user/repo> [OPTIONS]

ARGS:
    <user/repo>    The GitHub repository to process (e.g., 'rust-lang/rust').

OPTIONS:
    --include <PATTERNS>   Comma-separated patterns of files/directories to include.
                           (e.g., '*.rs,src/').
    --exclude <PATTERNS>   Comma-separated patterns of files/directories to exclude.
                           (e.g., '*.md,dist/,target/').
                           This is the default mode if no patterns are provided.
    --max-size <KB>        Maximum file size in kilobytes to include (default: 50).
    --token <TOKEN>        GitHub Personal Access Token for private repositories.
    -h, --help             Print this help message.

"
    );
}

#[test]
fn failure_report_has_message_and_usage() {
    assert_eq!(
        failure_report(&ArgsError::MissingRepo),
        format!(
            "Error parsing arguments: Missing required repository argument <user/repo>\n\n{}",
            usage()
        )
    );
}
