//! The command line.

use crate::text::chars_of;
use crate::text::contents;
use crate::text::decimal;
use crate::text::join;
use crate::text::law_join_then_split;
use crate::text::law_split_then_join;
use crate::text::law_trim;
use crate::text::parse_number;
use crate::text::read_number;
use crate::text::same_text;
use crate::text::split;
use crate::text::split_chars;
use crate::text::texts;
use crate::text::to_decimal;
use crate::text::trim;
use crate::text::trim_chars;
use crate::text::NumberError;
use vstd::prelude::*;

verus! {

/// The largest file size in kilobytes that is taken where none is asked for.
pub const DEFAULT_MAX_SIZE_KB: u64 = 50;

/// What the patterns do to the files that match them.
#[derive(Clone, Copy, Debug, PartialEq, Eq, Structural)]
pub enum PatternType {
    /// Only files that match are taken.
    Include,
    /// Files that match are left out.
    Exclude,
}

/// What the command line asks for.
#[derive(Debug)]
pub struct Args {
    /// The repository, as `user/repo`.
    pub repo: String,
    /// The access token for a private repository.
    pub token: Option<String>,
    /// What the patterns do.
    pub pattern_type: PatternType,
    /// The patterns.
    pub patterns: Vec<String>,
    /// The largest size of a file that is taken, in kilobytes.
    pub max_file_size_kb: u64,
}

/// The contents of [`Args`].
#[verifier::ext_equal]
pub struct ArgsView {
    pub repo: Seq<char>,
    pub token: Option<Seq<char>>,
    pub pattern_type: PatternType,
    pub patterns: Seq<Seq<char>>,
    pub max_file_size_kb: u64,
}

/// The contents of an optional string.
pub open spec fn optional_text(s: Option<String>) -> Option<Seq<char>> {
    match s {
        Some(s) => Some(s@),
        None => None,
    }
}

impl View for Args {
    type V = ArgsView;

    open spec fn view(&self) -> ArgsView {
        ArgsView {
            repo: self.repo@,
            token: optional_text(self.token),
            pattern_type: self.pattern_type,
            patterns: texts(self.patterns@),
            max_file_size_kb: self.max_file_size_kb,
        }
    }
}

/// What a well-formed command line asks the program to do.
#[derive(Debug)]
pub enum Invocation {
    /// Print the usage and stop.
    Help,
    /// Make a digest.
    Run(Args),
}

/// Why a command line is refused.
#[derive(Debug)]
pub enum ArgsError {
    /// `--token` is the last argument.
    MissingToken,
    /// `--max-size` is the last argument.
    MissingSize,
    /// `--include` is the last argument.
    MissingIncludePatterns,
    /// `--exclude` is the last argument.
    MissingExcludePatterns,
    /// The value of `--max-size` is no number.
    InvalidSize(NumberError),
    /// An argument that is no option stands where none is expected.
    Unexpected(String),
    /// No repository is named.
    MissingRepo,
}

/// The contents of [`ArgsError`].
pub enum Refusal {
    MissingToken,
    MissingSize,
    MissingIncludePatterns,
    MissingExcludePatterns,
    InvalidSize(NumberError),
    Unexpected(Seq<char>),
    MissingRepo,
}

impl View for ArgsError {
    type V = Refusal;

    open spec fn view(&self) -> Refusal {
        match *self {
            ArgsError::MissingToken => Refusal::MissingToken,
            ArgsError::MissingSize => Refusal::MissingSize,
            ArgsError::MissingIncludePatterns => Refusal::MissingIncludePatterns,
            ArgsError::MissingExcludePatterns => Refusal::MissingExcludePatterns,
            ArgsError::InvalidSize(e) => Refusal::InvalidSize(e),
            ArgsError::Unexpected(arg) => Refusal::Unexpected(arg@),
            ArgsError::MissingRepo => Refusal::MissingRepo,
        }
    }
}

/// What becomes of a command line.
pub enum Parsed {
    Help,
    Run(ArgsView),
    Refused(Refusal),
}

/// The contents of a result of [`parse_args`].
pub open spec fn outcome(result: Result<Invocation, ArgsError>) -> Parsed {
    match result {
        Ok(Invocation::Help) => Parsed::Help,
        Ok(Invocation::Run(args)) => Parsed::Run(args@),
        Err(e) => Parsed::Refused(e@),
    }
}

/// The options that take a value.
#[derive(Clone, Copy, Debug, PartialEq, Eq, Structural)]
pub enum OptionName {
    Token,
    MaxSize,
    Include,
    Exclude,
}

/// Whether an argument asks for the usage.
pub open spec fn asks_for_help(arg: Seq<char>) -> bool {
    arg == "-h"@ || arg == "--help"@
}

/// The option that an argument names.
pub open spec fn option_named(arg: Seq<char>) -> Option<OptionName> {
    if arg == "--token"@ {
        Some(OptionName::Token)
    } else if arg == "--max-size"@ {
        Some(OptionName::MaxSize)
    } else if arg == "--include"@ {
        Some(OptionName::Include)
    } else if arg == "--exclude"@ {
        Some(OptionName::Exclude)
    } else {
        None
    }
}

/// Whether an argument starts with a dash.
pub open spec fn is_dashed(arg: Seq<char>) -> bool {
    arg.len() > 0 && arg[0] == '-'
}

/// The patterns that a comma-separated list gives.
pub open spec fn pattern_list(value: Seq<char>) -> Seq<Seq<char>> {
    split(value, ',').map_values(|piece: Seq<char>| trim(piece))
}

/// What has been asked for so far: as [`ArgsView`], but the repository may be missing.
#[verifier::ext_equal]
pub struct Settings {
    pub repo: Option<Seq<char>>,
    pub token: Option<Seq<char>>,
    pub pattern_type: PatternType,
    pub patterns: Seq<Seq<char>>,
    pub max_file_size_kb: u64,
}

/// The settings before the first argument.
pub open spec fn default_settings() -> Settings {
    Settings {
        repo: None,
        token: None,
        pattern_type: PatternType::Exclude,
        patterns: Seq::empty(),
        max_file_size_kb: DEFAULT_MAX_SIZE_KB,
    }
}

/// The settings after an option with its value.
pub open spec fn with_option(settings: Settings, option: OptionName, value: Seq<char>) -> Result<
    Settings,
    Refusal,
> {
    match option {
        OptionName::Token => Ok(Settings { token: Some(value), ..settings }),
        OptionName::MaxSize => match read_number(value) {
            Ok(n) => Ok(Settings { max_file_size_kb: n, ..settings }),
            Err(e) => Err(Refusal::InvalidSize(e)),
        },
        OptionName::Include => Ok(
            Settings {
                pattern_type: PatternType::Include,
                patterns: pattern_list(value),
                ..settings
            },
        ),
        OptionName::Exclude => Ok(
            Settings {
                pattern_type: PatternType::Exclude,
                patterns: pattern_list(value),
                ..settings
            },
        ),
    }
}

/// The refusal of an option without a value.
pub open spec fn missing_value(option: OptionName) -> Refusal {
    match option {
        OptionName::Token => Refusal::MissingToken,
        OptionName::MaxSize => Refusal::MissingSize,
        OptionName::Include => Refusal::MissingIncludePatterns,
        OptionName::Exclude => Refusal::MissingExcludePatterns,
    }
}

/// What becomes of the settings when no argument is left.
pub open spec fn finished(settings: Settings) -> Parsed {
    match settings.repo {
        Some(repo) => Parsed::Run(
            ArgsView {
                repo,
                token: settings.token,
                pattern_type: settings.pattern_type,
                patterns: settings.patterns,
                max_file_size_kb: settings.max_file_size_kb,
            },
        ),
        None => Parsed::Refused(Refusal::MissingRepo),
    }
}

/// What becomes of the arguments `rest` after those that gave `settings`. The arguments are read
/// from the left, and the first that asks for help or is refused ends the reading.
pub open spec fn parsed_from(rest: Seq<Seq<char>>, settings: Settings) -> Parsed
    decreases rest.len(),
{
    if rest.len() == 0 {
        finished(settings)
    } else if asks_for_help(rest[0]) {
        Parsed::Help
    } else {
        match option_named(rest[0]) {
            Some(option) => if rest.len() == 1 {
                Parsed::Refused(missing_value(option))
            } else {
                match with_option(settings, option, rest[1]) {
                    Ok(settings) => parsed_from(rest.skip(2), settings),
                    Err(refusal) => Parsed::Refused(refusal),
                }
            },
            None => if settings.repo is None && !is_dashed(rest[0]) {
                parsed_from(rest.skip(1), Settings { repo: Some(rest[0]), ..settings })
            } else {
                Parsed::Refused(Refusal::Unexpected(rest[0]))
            },
        }
    }
}

/// What becomes of a command line, given without the program's name.
pub open spec fn parsed(args: Seq<Seq<char>>) -> Parsed {
    parsed_from(args, default_settings())
}

fn option_of(arg: &str) -> (option: Option<OptionName>)
    ensures
        option == option_named(arg@),
{
    if same_text(arg, "--token") {
        Some(OptionName::Token)
    } else if same_text(arg, "--max-size") {
        Some(OptionName::MaxSize)
    } else if same_text(arg, "--include") {
        Some(OptionName::Include)
    } else if same_text(arg, "--exclude") {
        Some(OptionName::Exclude)
    } else {
        None
    }
}

fn starts_with_dash(arg: &str) -> (dashed: bool)
    ensures
        dashed == is_dashed(arg@),
{
    let chars = chars_of(arg);
    chars.len() > 0 && chars[0] == '-'
}

/// The patterns of a comma-separated list, each without white space at its ends.
pub fn parse_patterns(value: &str) -> (patterns: Vec<String>)
    ensures
        texts(patterns@) == pattern_list(value@),
{
    let chars = chars_of(value);
    let pieces = split_chars(chars.as_slice(), ',');
    let ghost all = split(value@, ',');
    let ghost parts = contents(pieces@);
    let mut patterns: Vec<String> = Vec::new();
    let mut i: usize = 0;
    while i < pieces.len()
        invariant
            i <= pieces@.len(),
            parts == contents(pieces@),
            all == parts,
            patterns@.len() == i,
            forall|k: int| 0 <= k < i ==> (#[trigger] patterns@[k])@ == trim(all[k]),
        decreases pieces@.len() - i,
    {
        assert(parts[i as int] == pieces@[i as int]@);
        patterns.push(trim_chars(pieces[i].as_slice()));
        i += 1;
    }
    assert(texts(patterns@) =~= pattern_list(value@));
    patterns
}

/// Reads a command line, given without the program's name.
pub fn parse_args(args: &[String]) -> (result: Result<Invocation, ArgsError>)
    ensures
        outcome(result) == parsed(texts(args@)),
{
    let mut repo: Option<String> = None;
    let mut token: Option<String> = None;
    let mut pattern_type = PatternType::Exclude;
    let mut patterns: Vec<String> = Vec::new();
    let mut max_file_size_kb: u64 = DEFAULT_MAX_SIZE_KB;
    let ghost all = texts(args@);
    let mut i: usize = 0;
    assert(all.skip(0) == all);
    assert(texts(patterns@) =~= Seq::empty());
    while i < args.len()
        invariant
            i <= args@.len(),
            all == texts(args@),
            parsed_from(
                all.skip(i as int),
                Settings {
                    repo: optional_text(repo),
                    token: optional_text(token),
                    pattern_type,
                    patterns: texts(patterns@),
                    max_file_size_kb,
                },
            ) == parsed(all),
        decreases args@.len() - i,
    {
        let arg = args[i].as_str();
        let ghost rest = all.skip(i as int);
        assert(rest[0] == arg@);
        assert(rest.skip(1) == all.skip(i + 1));
        if same_text(arg, "-h") || same_text(arg, "--help") {
            return Ok(Invocation::Help);
        }
        match option_of(arg) {
            Some(option) => {
                if i + 1 == args.len() {
                    return Err(
                        match option {
                            OptionName::Token => ArgsError::MissingToken,
                            OptionName::MaxSize => ArgsError::MissingSize,
                            OptionName::Include => ArgsError::MissingIncludePatterns,
                            OptionName::Exclude => ArgsError::MissingExcludePatterns,
                        },
                    );
                }
                let value = args[i + 1].as_str();
                assert(rest[1] == value@);
                assert(rest.skip(2) == all.skip(i + 2));
                match option {
                    OptionName::Token => {
                        token = Some(value.to_owned());
                    },
                    OptionName::MaxSize => match parse_number(value) {
                        Ok(n) => {
                            max_file_size_kb = n;
                        },
                        Err(e) => {
                            return Err(ArgsError::InvalidSize(e));
                        },
                    },
                    OptionName::Include => {
                        pattern_type = PatternType::Include;
                        patterns = parse_patterns(value);
                    },
                    OptionName::Exclude => {
                        pattern_type = PatternType::Exclude;
                        patterns = parse_patterns(value);
                    },
                }
                i += 2;
            },
            None => {
                if repo.is_some() || starts_with_dash(arg) {
                    return Err(ArgsError::Unexpected(arg.to_owned()));
                }
                repo = Some(arg.to_owned());
                i += 1;
            },
        }
    }
    match repo {
        Some(repo) => Ok(
            Invocation::Run(Args { repo, token, pattern_type, patterns, max_file_size_kb }),
        ),
        None => Err(ArgsError::MissingRepo),
    }
}

/// Whether a command line is decided whatever follows it: it asks for help, or one of its arguments
/// is refused for what it is.
pub open spec fn is_decided(parsed: Parsed) -> bool {
    match parsed {
        Parsed::Help => true,
        Parsed::Run(_) => false,
        Parsed::Refused(refusal) => refusal is InvalidSize || refusal is Unexpected,
    }
}

/// Whether arguments that follow could not change a result of [`parse_args`].
pub fn is_final(result: &Result<Invocation, ArgsError>) -> (decided: bool)
    ensures
        decided == is_decided(outcome(*result)),
{
    match result {
        Ok(Invocation::Help) => true,
        Ok(Invocation::Run(_)) => false,
        Err(ArgsError::InvalidSize(_)) => true,
        Err(ArgsError::Unexpected(_)) => true,
        Err(_) => false,
    }
}

/// The message for a text that is no number.
pub open spec fn number_message(e: NumberError) -> Seq<char> {
    match e {
        NumberError::Empty => "cannot parse integer from empty string"@,
        NumberError::InvalidDigit => "invalid digit found in string"@,
        NumberError::TooLarge => "number too large to fit in target type"@,
    }
}

/// The message for a command line that is refused.
pub open spec fn refusal_message(refusal: Refusal) -> Seq<char> {
    match refusal {
        Refusal::MissingToken => "Expected a token after --token"@,
        Refusal::MissingSize => "Expected a size in KB after --max-size"@,
        Refusal::MissingIncludePatterns => "Expected patterns after --include"@,
        Refusal::MissingExcludePatterns => "Expected patterns after --exclude"@,
        Refusal::InvalidSize(e) => number_message(e),
        Refusal::Unexpected(arg) => "Unknown or misplaced argument: "@ + arg,
        Refusal::MissingRepo => "Missing required repository argument <user/repo>"@,
    }
}

impl ArgsError {
    /// The message that tells the user what is wrong.
    pub fn message(&self) -> (message: String)
        ensures
            message@ == refusal_message(self@),
    {
        match self {
            ArgsError::MissingToken => "Expected a token after --token".to_owned(),
            ArgsError::MissingSize => "Expected a size in KB after --max-size".to_owned(),
            ArgsError::MissingIncludePatterns => "Expected patterns after --include".to_owned(),
            ArgsError::MissingExcludePatterns => "Expected patterns after --exclude".to_owned(),
            ArgsError::InvalidSize(NumberError::Empty) => {
                "cannot parse integer from empty string".to_owned()
            },
            ArgsError::InvalidSize(NumberError::InvalidDigit) => {
                "invalid digit found in string".to_owned()
            },
            ArgsError::InvalidSize(NumberError::TooLarge) => {
                "number too large to fit in target type".to_owned()
            },
            ArgsError::Unexpected(arg) => {
                let mut message = "Unknown or misplaced argument: ".to_owned();
                message.append(arg.as_str());
                message
            },
            ArgsError::MissingRepo => {
                "Missing required repository argument <user/repo>".to_owned()
            },
        }
    }
}

/// The usage up to the default size.
pub const USAGE_BEFORE_SIZE: &'static str = "Gitingest - A tool to create a prompt-friendly text digest of a GitHub repository.

USAGE:
    gitingest <user/repo> [OPTIONS]

ARGS:
    <user/repo>    The GitHub repository to process (e.g., 'rust-lang/rust').

OPTIONS:
    --include <PATTERNS>   Comma-separated patterns of files/directories to include.
                           (e.g., '*.rs,src/').
    --exclude <PATTERNS>   Comma-separated patterns of files/directories to exclude.
                           (e.g., '*.md,dist/,target/').
                           This is the default mode if no patterns are provided.
    --max-size <KB>        Maximum file size in kilobytes to include (default: ";

/// The usage behind the default size.
pub const USAGE_AFTER_SIZE: &'static str = ").
    --token <TOKEN>        GitHub Personal Access Token for private repositories.
    -h, --help             Print this help message.

";

/// What the program prints about its use.
pub open spec fn usage_text() -> Seq<char> {
    USAGE_BEFORE_SIZE@ + decimal(DEFAULT_MAX_SIZE_KB as nat) + USAGE_AFTER_SIZE@
}

/// What the program prints about its use, with an empty line at the end.
pub fn usage() -> (text: String)
    ensures
        text@ == usage_text(),
{
    let mut text = USAGE_BEFORE_SIZE.to_owned();
    text.append(to_decimal(DEFAULT_MAX_SIZE_KB as u128).as_str());
    text.append(USAGE_AFTER_SIZE);
    text
}

/// What the program prints when it refuses its command line: the message, then its usage.
pub fn failure_report(e: &ArgsError) -> (text: String)
    ensures
        text@ == "Error parsing arguments: "@ + refusal_message(e@) + "\n\n"@ + usage_text(),
{
    let mut text = "Error parsing arguments: ".to_owned();
    text.append(e.message().as_str());
    text.append("\n\n");
    text.append(usage().as_str());
    text
}

/// Reading on after a command line that is complete in itself.
proof fn lemma_read_on(rest: Seq<Seq<char>>, settings: Settings, more: Seq<Seq<char>>) -> (after:
    Settings)
    requires
        parsed_from(rest, settings) is Run,
    ensures
        finished(after) == parsed_from(rest, settings),
        parsed_from(rest + more, settings) == parsed_from(more, after),
    decreases rest.len(),
{
    let whole = rest + more;
    if rest.len() == 0 {
        assert(whole == more);
        settings
    } else {
        assert(whole[0] == rest[0]);
        match option_named(rest[0]) {
            Some(option) => {
                assert(whole[1] == rest[1]);
                assert(whole.skip(2) == rest.skip(2) + more);
                lemma_read_on(rest.skip(2), with_option(settings, option, rest[1])->Ok_0, more)
            },
            None => {
                assert(whole.skip(1) == rest.skip(1) + more);
                lemma_read_on(
                    rest.skip(1),
                    Settings { repo: Some(rest[0]), ..settings },
                    more,
                )
            },
        }
    }
}

/// Where a command line is decided, nothing that follows it is looked at.
pub proof fn law_decided_whatever_follows(args: Seq<Seq<char>>, more: Seq<Seq<char>>)
    requires
        is_decided(parsed(args)),
    ensures
        parsed(args + more) == parsed(args),
{
    lemma_decided_from(args, default_settings(), more);
}

proof fn lemma_decided_from(rest: Seq<Seq<char>>, settings: Settings, more: Seq<Seq<char>>)
    requires
        is_decided(parsed_from(rest, settings)),
    ensures
        parsed_from(rest + more, settings) == parsed_from(rest, settings),
    decreases rest.len(),
{
    let whole = rest + more;
    if rest.len() > 0 && !asks_for_help(rest[0]) {
        assert(whole[0] == rest[0]);
        match option_named(rest[0]) {
            Some(option) => {
                assert(whole[1] == rest[1]);
                match with_option(settings, option, rest[1]) {
                    Ok(next) => {
                        assert(whole.skip(2) == rest.skip(2) + more);
                        lemma_decided_from(rest.skip(2), next, more);
                    },
                    Err(_) => {},
                }
            },
            None => {
                if settings.repo is None && !is_dashed(rest[0]) {
                    assert(whole.skip(1) == rest.skip(1) + more);
                    lemma_decided_from(
                        rest.skip(1),
                        Settings { repo: Some(rest[0]), ..settings },
                        more,
                    );
                }
            },
        }
    } else if rest.len() > 0 {
        assert(whole[0] == rest[0]);
    }
}

proof fn lemma_options_differ()
    ensures
        !asks_for_help("--token"@) && option_named("--token"@) == Some(OptionName::Token),
        !asks_for_help("--max-size"@) && option_named("--max-size"@) == Some(OptionName::MaxSize),
        !asks_for_help("--include"@) && option_named("--include"@) == Some(OptionName::Include),
        !asks_for_help("--exclude"@) && option_named("--exclude"@) == Some(OptionName::Exclude),
        is_dashed("-h"@) && is_dashed("--help"@),
        is_dashed("--token"@) && is_dashed("--max-size"@),
        is_dashed("--include"@) && is_dashed("--exclude"@),
{
    reveal_strlit("-h");
    reveal_strlit("--help");
    reveal_strlit("--token");
    reveal_strlit("--max-size");
    reveal_strlit("--include");
    reveal_strlit("--exclude");
    assert("-h"@.len() == 2 && "--token"@.len() == 7);
    assert("--max-size"@.len() == 10 && "--include"@.len() == 9);
    assert("--exclude"@.len() == 9 && "--help"@.len() == 6);
    assert("--include"@[2] != "--exclude"@[2]);
}

/// A repository alone asks for every file up to the default size.
pub proof fn law_default_arguments(repo: Seq<char>)
    requires
        !is_dashed(repo),
    ensures
        parsed(seq![repo]) == Parsed::Run(
            ArgsView {
                repo,
                token: None,
                pattern_type: PatternType::Exclude,
                patterns: Seq::empty(),
                max_file_size_kb: DEFAULT_MAX_SIZE_KB,
            },
        ),
{
    lemma_options_differ();
    assert(seq![repo].skip(1).len() == 0);
    assert(parsed_from(seq![repo].skip(1), Settings { repo: Some(repo), ..default_settings() })
        == finished(Settings { repo: Some(repo), ..default_settings() }));
}

/// An option behind a complete command line replaces what was asked for before, and leaves the
/// rest as it was: of two equal options, or of two filters, the last one counts.
pub proof fn law_last_option_counts(args: Seq<Seq<char>>, value: Seq<char>)
    requires
        parsed(args) is Run,
    ensures
        parsed(args + seq!["--token"@, value]) == Parsed::Run(
            ArgsView { token: Some(value), ..parsed(args)->Run_0 },
        ),
        parsed(args + seq!["--include"@, value]) == Parsed::Run(
            ArgsView {
                pattern_type: PatternType::Include,
                patterns: pattern_list(value),
                ..parsed(args)->Run_0
            },
        ),
        parsed(args + seq!["--exclude"@, value]) == Parsed::Run(
            ArgsView {
                pattern_type: PatternType::Exclude,
                patterns: pattern_list(value),
                ..parsed(args)->Run_0
            },
        ),
        parsed(args + seq!["--max-size"@, value]) == match read_number(value) {
            Ok(n) => Parsed::Run(ArgsView { max_file_size_kb: n, ..parsed(args)->Run_0 }),
            Err(e) => Parsed::Refused(Refusal::InvalidSize(e)),
        },
{
    lemma_options_differ();
    lemma_one_option(args, "--token"@, value);
    lemma_one_option(args, "--include"@, value);
    lemma_one_option(args, "--exclude"@, value);
    lemma_one_option(args, "--max-size"@, value);
}

proof fn lemma_one_option(args: Seq<Seq<char>>, arg: Seq<char>, value: Seq<char>)
    requires
        parsed(args) is Run,
        option_named(arg) is Some,
        !asks_for_help(arg),
    ensures
        exists|after: Settings|
            finished(after) == parsed(args) && parsed(args + seq![arg, value]) == match (
            #[trigger] with_option(after, option_named(arg)->0, value)) {
                Ok(settings) => finished(settings),
                Err(refusal) => Parsed::Refused(refusal),
            },
{
    let more = seq![arg, value];
    let after = lemma_read_on(args, default_settings(), more);
    let option = option_named(arg)->0;
    assert(more.skip(2).len() == 0);
    match with_option(after, option, value) {
        Ok(settings) => {
            assert(parsed_from(more.skip(2), settings) == finished(settings));
        },
        Err(_) => {},
    }
}

/// One argument more behind a complete command line asks for help, or is refused: an option for
/// want of its value, anything else because the repository has been named.
pub proof fn law_one_argument_more(args: Seq<Seq<char>>, arg: Seq<char>)
    requires
        parsed(args) is Run,
    ensures
        parsed(args.push(arg)) == if asks_for_help(arg) {
            Parsed::Help
        } else {
            match option_named(arg) {
                Some(option) => Parsed::Refused(missing_value(option)),
                None => Parsed::Refused(Refusal::Unexpected(arg)),
            }
        },
{
    let after = lemma_read_on(args, default_settings(), seq![arg]);
    assert(args.push(arg) == args + seq![arg]);
}

/// Patterns that are written one after the other with commas between them are read back, where none
/// has a comma or white space at its ends.
pub proof fn law_pattern_list_round_trip(patterns: Seq<Seq<char>>)
    requires
        patterns.len() > 0,
        forall|i: int|
            0 <= i < patterns.len() ==> !(#[trigger] patterns[i]).contains(',') && trim(patterns[i])
                == patterns[i],
    ensures
        pattern_list(join(patterns, seq![','])) == patterns,
{
    law_join_then_split(patterns, ',');
    assert(pattern_list(join(patterns, seq![','])) =~= patterns);
}

/// What holds of every command line that is not refused: the repository does not start with a
/// dash, no pattern has white space at its ends, and whoever asks for matching files only gives at
/// least one pattern.
pub proof fn law_accepted_arguments(args: Seq<Seq<char>>)
    requires
        parsed(args) is Run,
    ensures
        ({
            let a = parsed(args)->Run_0;
            &&& !is_dashed(a.repo)
            &&& forall|i: int|
                0 <= i < a.patterns.len() ==> trim(#[trigger] a.patterns[i]) == a.patterns[i]
            &&& a.pattern_type is Include ==> a.patterns.len() > 0
        }),
{
    lemma_accepted_from(args, default_settings());
}

spec fn is_sound(settings: Settings) -> bool {
    &&& settings.repo is Some ==> !is_dashed(settings.repo->0)
    &&& forall|i: int|
        0 <= i < settings.patterns.len() ==> trim(#[trigger] settings.patterns[i])
            == settings.patterns[i]
    &&& settings.pattern_type is Include ==> settings.patterns.len() > 0
}

proof fn lemma_accepted_from(rest: Seq<Seq<char>>, settings: Settings)
    requires
        parsed_from(rest, settings) is Run,
        is_sound(settings),
    ensures
        exists|after: Settings|
            #[trigger] finished(after) == parsed_from(rest, settings) && is_sound(after),
    decreases rest.len(),
{
    if rest.len() > 0 {
        match option_named(rest[0]) {
            Some(option) => {
                law_split_then_join(rest[1], ',');
                let next = with_option(settings, option, rest[1])->Ok_0;
                assert forall|i: int| 0 <= i < pattern_list(rest[1]).len() implies trim(
                    #[trigger] pattern_list(rest[1])[i],
                ) == pattern_list(rest[1])[i] by {
                    law_trim(split(rest[1], ',')[i]);
                }
                lemma_accepted_from(rest.skip(2), next);
            },
            None => {
                lemma_accepted_from(rest.skip(1), Settings { repo: Some(rest[0]), ..settings });
            },
        }
    }
}

/// What a user writes into a command line: an option with its value, or the repository.
pub enum Item {
    Token(Seq<char>),
    MaxSize(Seq<char>),
    Include(Seq<char>),
    Exclude(Seq<char>),
    Repo(Seq<char>),
}

/// The arguments that an item is written as.
pub open spec fn written(item: Item) -> Seq<Seq<char>> {
    match item {
        Item::Token(value) => seq!["--token"@, value],
        Item::MaxSize(value) => seq!["--max-size"@, value],
        Item::Include(value) => seq!["--include"@, value],
        Item::Exclude(value) => seq!["--exclude"@, value],
        Item::Repo(repo) => seq![repo],
    }
}

/// The arguments that some items are written as, one after the other.
pub open spec fn written_in_turn(items: Seq<Item>) -> Seq<Seq<char>>
    decreases items.len(),
{
    if items.len() == 0 {
        Seq::empty()
    } else {
        written_in_turn(items.drop_last()) + written(items.last())
    }
}

/// Whether some items can stand in one command line, in whatever order: every size is a number, and
/// the repository does not start with a dash and is not named twice.
pub open spec fn go_together(items: Seq<Item>) -> bool {
    &&& forall|i: int|
        0 <= i < items.len() ==> match #[trigger] items[i] {
            Item::MaxSize(value) => read_number(value) is Ok,
            Item::Repo(repo) => repo.len() == 0 || repo[0] != '-',
            _ => true,
        }
    &&& forall|i: int, j: int|
        0 <= i < j < items.len() ==> !(#[trigger] items[i] is Repo && #[trigger] items[j] is Repo)
}

spec fn settings_after(items: Seq<Item>) -> Settings
    decreases items.len(),
{
    if items.len() == 0 {
        default_settings()
    } else {
        let before = settings_after(items.drop_last());
        match items.last() {
            Item::Token(value) => with_option(before, OptionName::Token, value)->Ok_0,
            Item::MaxSize(value) => with_option(before, OptionName::MaxSize, value)->Ok_0,
            Item::Include(value) => with_option(before, OptionName::Include, value)->Ok_0,
            Item::Exclude(value) => with_option(before, OptionName::Exclude, value)->Ok_0,
            Item::Repo(repo) => Settings { repo: Some(repo), ..before },
        }
    }
}

proof fn lemma_fewer_go_together(items: Seq<Item>)
    requires
        go_together(items),
        items.len() > 0,
    ensures
        go_together(items.drop_last()),
{
    let front = items.drop_last();
    assert forall|i: int| 0 <= i < front.len() implies match #[trigger] front[i] {
        Item::MaxSize(value) => read_number(value) is Ok,
        Item::Repo(repo) => repo.len() == 0 || repo[0] != '-',
        _ => true,
    } by {
        assert(front[i] == items[i]);
    }
    assert forall|i: int, j: int| 0 <= i < j < front.len() implies !(#[trigger] front[i] is Repo
        && #[trigger] front[j] is Repo) by {
        assert(front[i] == items[i] && front[j] == items[j]);
    }
}

/// The repository is known exactly if an item names it.
proof fn lemma_repo_after(items: Seq<Item>)
    requires
        go_together(items),
    ensures
        settings_after(items).repo is None <==> (forall|i: int|
            0 <= i < items.len() ==> !(#[trigger] items[i] is Repo)),
        forall|i: int|
            0 <= i < items.len() && #[trigger] items[i] is Repo ==> settings_after(items).repo
                == Some(items[i]->Repo_0),
    decreases items.len(),
{
    if items.len() > 0 {
        let front = items.drop_last();
        let last = items.len() - 1;
        lemma_fewer_go_together(items);
        lemma_repo_after(front);
        assert forall|i: int| 0 <= i < front.len() implies #[trigger] items[i] == front[i] by {}
        if settings_after(items).repo is None {
            assert forall|i: int| 0 <= i < items.len() implies !(#[trigger] items[i] is Repo) by {
                if i < last {
                    assert(!(front[i] is Repo));
                }
            }
        }
        if forall|i: int| 0 <= i < items.len() ==> !(#[trigger] items[i] is Repo) {
            assert forall|i: int| 0 <= i < front.len() implies !(#[trigger] front[i] is Repo) by {
                assert(!(items[i] is Repo));
            }
            assert(!(items[last] is Repo));
        }
        assert forall|i: int| 0 <= i < items.len() && #[trigger] items[i] is Repo implies
            settings_after(items).repo == Some(items[i]->Repo_0) by {
            if i < last {
                assert(front[i] is Repo);
                assert(!(items[last] is Repo));
            }
        }
    }
}

/// Items are read whatever follows them.
proof fn lemma_items_are_read(items: Seq<Item>, more: Seq<Seq<char>>)
    requires
        go_together(items),
    ensures
        parsed(written_in_turn(items) + more) == parsed_from(more, settings_after(items)),
    decreases items.len(),
{
    if items.len() == 0 {
        assert(written_in_turn(items) + more =~= more);
    } else {
        let front = items.drop_last();
        let item = items.last();
        let rest = written(item) + more;
        let before = settings_after(front);
        lemma_fewer_go_together(items);
        lemma_items_are_read(front, rest);
        assert(written_in_turn(items) + more =~= written_in_turn(front) + rest);
        lemma_options_differ();
        lemma_repo_after(front);
        assert(items[items.len() - 1] == item);
        match item {
            Item::Repo(repo) => {
                assert(rest[0] == repo);
                assert(rest.skip(1) =~= more);
                assert(before.repo is None) by {
                    assert forall|i: int| 0 <= i < front.len() implies !(
                    #[trigger] front[i] is Repo) by {
                        assert(front[i] == items[i]);
                        assert(!(items[i] is Repo && items[items.len() - 1] is Repo));
                    }
                }
            },
            _ => {
                assert(rest[0] == written(item)[0]);
                assert(rest[1] == written(item)[1]);
                assert(rest.skip(2) =~= more);
            },
        }
    }
}

/// What becomes of the items of a command line, whatever their order is. It is refused only if no
/// repository is named. Of the tokens, the sizes and the filters the last one counts, and each is
/// left as it is by all other items.
pub proof fn law_items_are_gathered(items: Seq<Item>)
    requires
        go_together(items),
    ensures
        ({
            let outcome = parsed(written_in_turn(items));
            let a = outcome->Run_0;
            &&& (forall|i: int| 0 <= i < items.len() ==> !(#[trigger] items[i] is Repo)) ==> outcome
                == Parsed::Refused(Refusal::MissingRepo)
            &&& forall|i: int|
                0 <= i < items.len() && #[trigger] items[i] is Repo ==> outcome is Run && a.repo
                    == items[i]->Repo_0
            &&& outcome is Run ==> {
                &&& (forall|i: int| 0 <= i < items.len() ==> !(#[trigger] items[i] is Token))
                    ==> a.token is None
                &&& forall|i: int|
                    0 <= i < items.len() && #[trigger] items[i] is Token && (forall|j: int|
                        i < j < items.len() ==> !(#[trigger] items[j] is Token)) ==> a.token
                        == Some(items[i]->Token_0)
                &&& (forall|i: int| 0 <= i < items.len() ==> !(#[trigger] items[i] is MaxSize))
                    ==> a.max_file_size_kb == 50
                &&& forall|i: int|
                    0 <= i < items.len() && #[trigger] items[i] is MaxSize && (forall|j: int|
                        i < j < items.len() ==> !(#[trigger] items[j] is MaxSize)) ==> read_number(
                        items[i]->MaxSize_0,
                    ) == Ok::<u64, NumberError>(a.max_file_size_kb)
                &&& (forall|i: int|
                    0 <= i < items.len() ==> !(#[trigger] items[i] is Include) && !(
                    items[i] is Exclude)) ==> a.pattern_type is Exclude && a.patterns.len() == 0
                &&& forall|i: int|
                    0 <= i < items.len() && #[trigger] items[i] is Include && (forall|j: int|
                        i < j < items.len() ==> !(#[trigger] items[j] is Include) && !(
                        items[j] is Exclude)) ==> a.pattern_type is Include && a.patterns
                        == pattern_list(items[i]->Include_0)
                &&& forall|i: int|
                    0 <= i < items.len() && #[trigger] items[i] is Exclude && (forall|j: int|
                        i < j < items.len() ==> !(#[trigger] items[j] is Include) && !(
                        items[j] is Exclude)) ==> a.pattern_type is Exclude && a.patterns
                        == pattern_list(items[i]->Exclude_0)
            }
        }),
{
    lemma_items_are_read(items, Seq::empty());
    assert(written_in_turn(items) + Seq::<Seq<char>>::empty() =~= written_in_turn(items));
    lemma_repo_after(items);
    let token = lemma_last_token(items);
    let size = lemma_last_size(items);
    let filter = lemma_last_filter(items);
    assert forall|i: int|
        0 <= i < items.len() && #[trigger] items[i] is Token && (forall|j: int|
            i < j < items.len() ==> !(#[trigger] items[j] is Token)) implies i == token by {}
    assert forall|i: int|
        0 <= i < items.len() && #[trigger] items[i] is MaxSize && (forall|j: int|
            i < j < items.len() ==> !(#[trigger] items[j] is MaxSize)) implies i == size by {}
    assert forall|i: int|
        0 <= i < items.len() && (#[trigger] items[i] is Include || items[i] is Exclude) && (forall|
            j: int,
        |
            i < j < items.len() ==> !(#[trigger] items[j] is Include) && !(
            items[j] is Exclude)) implies i == filter by {}
}

/// The place of the last token, or -1.
proof fn lemma_last_token(items: Seq<Item>) -> (k: int)
    requires
        go_together(items),
    ensures
        -1 <= k < items.len(),
        forall|j: int| k < j < items.len() ==> !(#[trigger] items[j] is Token),
        k >= 0 ==> items[k] is Token,
        settings_after(items).token == if k >= 0 {
            Some(items[k]->Token_0)
        } else {
            None
        },
    decreases items.len(),
{
    if items.len() == 0 {
        -1
    } else if items.last() is Token {
        items.len() - 1
    } else {
        lemma_fewer_go_together(items);
        assert(items[items.len() - 1] == items.last());
        let k = lemma_last_token(items.drop_last());
        assert forall|j: int| k < j < items.len() implies !(#[trigger] items[j] is Token) by {
            if j < items.len() - 1 {
                assert(!(items.drop_last()[j] is Token));
            }
        }
        k
    }
}

/// The place of the last size, or -1.
proof fn lemma_last_size(items: Seq<Item>) -> (k: int)
    requires
        go_together(items),
    ensures
        -1 <= k < items.len(),
        forall|j: int| k < j < items.len() ==> !(#[trigger] items[j] is MaxSize),
        k >= 0 ==> items[k] is MaxSize && read_number(items[k]->MaxSize_0) == Ok::<u64, NumberError>(
            settings_after(items).max_file_size_kb,
        ),
        k < 0 ==> settings_after(items).max_file_size_kb == 50,
    decreases items.len(),
{
    if items.len() == 0 {
        -1
    } else {
        assert(items[items.len() - 1] == items.last());
        if items.last() is MaxSize {
            items.len() - 1
        } else {
            lemma_fewer_go_together(items);
            let k = lemma_last_size(items.drop_last());
            assert forall|j: int| k < j < items.len() implies !(#[trigger] items[j] is MaxSize) by {
                if j < items.len() - 1 {
                    assert(!(items.drop_last()[j] is MaxSize));
                }
            }
            k
        }
    }
}

/// The place of the last filter, or -1.
proof fn lemma_last_filter(items: Seq<Item>) -> (k: int)
    requires
        go_together(items),
    ensures
        -1 <= k < items.len(),
        forall|j: int|
            k < j < items.len() ==> !(#[trigger] items[j] is Include) && !(items[j] is Exclude),
        k >= 0 ==> items[k] is Include || items[k] is Exclude,
        k >= 0 && items[k] is Include ==> settings_after(items).pattern_type is Include
            && settings_after(items).patterns == pattern_list(items[k]->Include_0),
        k >= 0 && items[k] is Exclude ==> settings_after(items).pattern_type is Exclude
            && settings_after(items).patterns == pattern_list(items[k]->Exclude_0),
        k < 0 ==> settings_after(items).pattern_type is Exclude && settings_after(
            items,
        ).patterns.len() == 0,
    decreases items.len(),
{
    if items.len() == 0 {
        -1
    } else if items.last() is Include || items.last() is Exclude {
        items.len() - 1
    } else {
        lemma_fewer_go_together(items);
        assert(items[items.len() - 1] == items.last());
        let k = lemma_last_filter(items.drop_last());
        assert forall|j: int| k < j < items.len() implies !(#[trigger] items[j] is Include) && !(
        items[j] is Exclude) by {
            if j < items.len() - 1 {
                assert(!(items.drop_last()[j] is Include));
            }
        }
        k
    }
}

/// What ends the reading behind some items, whatever follows: a call for help, a size that is no
/// number, and an argument that is neither an option nor the first repository. An option that is
/// the last argument wants its value.
pub proof fn law_reading_ends(
    items: Seq<Item>,
    value: Seq<char>,
    arg: Seq<char>,
    more: Seq<Seq<char>>,
)
    requires
        go_together(items),
    ensures
        ({
            let front = written_in_turn(items);
            &&& parsed(front + (seq!["-h"@] + more)) == Parsed::Help
            &&& parsed(front + (seq!["--help"@] + more)) == Parsed::Help
            &&& parsed(front + seq!["--token"@]) == Parsed::Refused(Refusal::MissingToken)
            &&& parsed(front + seq!["--max-size"@]) == Parsed::Refused(Refusal::MissingSize)
            &&& parsed(front + seq!["--include"@]) == Parsed::Refused(
                Refusal::MissingIncludePatterns,
            )
            &&& parsed(front + seq!["--exclude"@]) == Parsed::Refused(
                Refusal::MissingExcludePatterns,
            )
            &&& read_number(value) matches Err(e) ==> parsed(
                front + (seq!["--max-size"@, value] + more),
            ) == Parsed::Refused(Refusal::InvalidSize(e))
            &&& {
                &&& arg != "-h"@ && arg != "--help"@ && arg != "--token"@ && arg != "--max-size"@
                &&& arg != "--include"@ && arg != "--exclude"@
                &&& (arg.len() > 0 && arg[0] == '-') || exists|i: int|
                    0 <= i < items.len() && #[trigger] items[i] is Repo
            } ==> parsed(front + (seq![arg] + more)) == Parsed::Refused(Refusal::Unexpected(arg))
        }),
{
    lemma_options_differ();
    lemma_items_are_read(items, seq!["-h"@] + more);
    lemma_items_are_read(items, seq!["--help"@] + more);
    lemma_items_are_read(items, seq!["--token"@]);
    lemma_items_are_read(items, seq!["--max-size"@]);
    lemma_items_are_read(items, seq!["--include"@]);
    lemma_items_are_read(items, seq!["--exclude"@]);
    lemma_items_are_read(items, seq!["--max-size"@, value] + more);
    lemma_items_are_read(items, seq![arg] + more);
    lemma_repo_after(items);
    assert((seq!["-h"@] + more)[0] == "-h"@);
    assert((seq!["--help"@] + more)[0] == "--help"@);
    assert((seq!["--max-size"@, value] + more)[0] == "--max-size"@);
    assert((seq!["--max-size"@, value] + more)[1] == value);
    assert((seq![arg] + more)[0] == arg);
}

/// The place of the repository does not matter: it may stand before or behind any option with its
/// value, and between any others.
pub proof fn law_repository_may_stand_anywhere(
    before: Seq<Item>,
    repo: Seq<char>,
    item: Item,
    behind: Seq<Item>,
)
    requires
        go_together(before + seq![Item::Repo(repo), item] + behind),
    ensures
        parsed(written_in_turn(before + seq![Item::Repo(repo), item] + behind)) == parsed(
            written_in_turn(before + seq![item, Item::Repo(repo)] + behind),
        ),
{
    let here = before.push(Item::Repo(repo)).push(item);
    let there = before.push(item).push(Item::Repo(repo));
    let a = before + seq![Item::Repo(repo), item] + behind;
    let b = before + seq![item, Item::Repo(repo)] + behind;
    let n = before.len() as int;
    assert(a =~= here + behind);
    assert(b =~= there + behind);
    assert(a[n] == Item::Repo(repo) && a[n + 1] == item);
    assert(!(a[n] is Repo && a[n + 1] is Repo));
    assert(here.drop_last() =~= before.push(Item::Repo(repo)));
    assert(there.drop_last() =~= before.push(item));
    assert(before.push(Item::Repo(repo)).drop_last() =~= before);
    assert(before.push(item).drop_last() =~= before);
    let start = settings_after(before);
    let named = settings_after(before.push(Item::Repo(repo)));
    let set = settings_after(before.push(item));
    assert(named == Settings { repo: Some(repo), ..start });
    assert(settings_after(there) == Settings { repo: Some(repo), ..set });
    assert(settings_after(here) == settings_after(there));
    lemma_same_settings(here, there, behind);
    assert(go_together(b)) by {
        let swap = |k: int|
            if k == n {
                n + 1
            } else if k == n + 1 {
                n
            } else {
                k
            };
        assert forall|i: int| 0 <= i < b.len() implies #[trigger] b[i] == a[swap(i)] by {
            assert(b[n] == item && b[n + 1] == Item::Repo(repo));
            if i < n {
                assert(b[i] == before[i] && a[i] == before[i]);
            } else if i > n + 1 {
                assert(b[i] == behind[i - n - 2] && a[i] == behind[i - n - 2]);
            }
        }
        assert forall|i: int, j: int| 0 <= i < j < b.len() implies !(#[trigger] b[i] is Repo
            && #[trigger] b[j] is Repo) by {
            assert(b[i] == a[swap(i)] && b[j] == a[swap(j)]);
            if swap(i) < swap(j) {
                assert(!(a[swap(i)] is Repo && a[swap(j)] is Repo));
            } else {
                assert(!(a[swap(j)] is Repo && a[swap(i)] is Repo));
            }
        }
    }
    let none = Seq::<Seq<char>>::empty();
    lemma_items_are_read(a, none);
    lemma_items_are_read(b, none);
    assert(written_in_turn(a) + none =~= written_in_turn(a));
    assert(written_in_turn(b) + none =~= written_in_turn(b));
}

proof fn lemma_same_settings(a: Seq<Item>, b: Seq<Item>, behind: Seq<Item>)
    requires
        settings_after(a) == settings_after(b),
    ensures
        settings_after(a + behind) == settings_after(b + behind),
    decreases behind.len(),
{
    if behind.len() == 0 {
        assert(a + behind =~= a);
        assert(b + behind =~= b);
    } else {
        lemma_same_settings(a, b, behind.drop_last());
        assert((a + behind).drop_last() =~= a + behind.drop_last());
        assert((b + behind).drop_last() =~= b + behind.drop_last());
    }
}

/// The patterns of a list are its pieces between commas, in order, each without the white space at
/// its ends.
pub proof fn law_pattern_list_pieces(pieces: Seq<Seq<char>>)
    requires
        pieces.len() > 0,
        forall|i: int| 0 <= i < pieces.len() ==> !(#[trigger] pieces[i]).contains(','),
    ensures
        pattern_list(join(pieces, seq![','])) == pieces.map_values(|piece: Seq<char>| trim(piece)),
{
    law_join_then_split(pieces, ',');
}

/// Where a command line is not decided, what follows it may change what becomes of it.
pub proof fn law_open_whatever_follows(args: Seq<Seq<char>>)
    requires
        !is_decided(parsed(args)),
    ensures
        parsed(args + seq!["-h"@, "-h"@]) != parsed(args),
{
    lemma_open_from(args, default_settings());
}

proof fn lemma_open_from(rest: Seq<Seq<char>>, settings: Settings)
    requires
        !is_decided(parsed_from(rest, settings)),
    ensures
        is_decided(parsed_from(rest + seq!["-h"@, "-h"@], settings)),
    decreases rest.len(),
{
    let more = seq!["-h"@, "-h"@];
    let whole = rest + more;
    if rest.len() == 0 {
        assert(whole[0] == "-h"@);
    } else {
        assert(whole[0] == rest[0]);
        match option_named(rest[0]) {
            Some(option) => {
                if rest.len() == 1 {
                    assert(whole[1] == "-h"@);
                    assert(whole.skip(2) =~= seq!["-h"@]);
                    match with_option(settings, option, "-h"@) {
                        Ok(next) => {
                            assert(seq!["-h"@][0] == "-h"@);
                            assert(parsed_from(seq!["-h"@], next) is Help);
                        },
                        Err(_) => {},
                    }
                } else {
                    assert(whole[1] == rest[1]);
                    assert(whole.skip(2) =~= rest.skip(2) + more);
                    match with_option(settings, option, rest[1]) {
                        Ok(next) => {
                            lemma_open_from(rest.skip(2), next);
                        },
                        Err(_) => {},
                    }
                }
            },
            None => {
                assert(whole.skip(1) =~= rest.skip(1) + more);
                lemma_open_from(rest.skip(1), Settings { repo: Some(rest[0]), ..settings });
            },
        }
    }
}

/// The message on an argument that was not expected ends with that argument, so that it tells
/// one such argument from another.
pub proof fn law_messages_tell_the_refusal(a: Seq<char>, b: Seq<char>)
    ensures
        a.is_suffix_of(refusal_message(Refusal::Unexpected(a))),
        a != b ==> refusal_message(Refusal::Unexpected(a)) != refusal_message(
            Refusal::Unexpected(b),
        ),
{
    let head = "Unknown or misplaced argument: "@;
    let x = head + a;
    let y = head + b;
    assert(a =~= x.subrange(x.len() - a.len(), x.len() as int));
    if x == y {
        assert(x.skip(head.len() as int) =~= a);
        assert(y.skip(head.len() as int) =~= b);
    }
}

/// The contents of arguments are those of their fields.
pub proof fn law_arguments_field_by_field(args: Args, i: int)
    ensures
        args@.repo == args.repo@,
        args.token is None <==> args@.token is None,
        args.token is Some ==> args@.token == Some(args.token->0@),
        args@.pattern_type == args.pattern_type,
        args@.patterns.len() == args.patterns@.len(),
        0 <= i < args.patterns@.len() ==> args@.patterns[i] == args.patterns@[i]@,
        args@.max_file_size_kb == args.max_file_size_kb,
{
}

/// What becomes of a command line is told by the result case by case, with what it carries.
pub proof fn law_outcome_case_by_case(result: Result<Invocation, ArgsError>)
    ensures
        outcome(result) is Help <==> result matches Ok(Invocation::Help),
        forall|args: Args|
            result == Ok::<Invocation, ArgsError>(Invocation::Run(args)) ==> outcome(result)
                == Parsed::Run(#[trigger] args@),
        result is Err ==> outcome(result) == Parsed::Refused(result->Err_0@),
        result matches Err(e) ==> {
            &&& e is MissingToken <==> e@ is MissingToken
            &&& e is MissingSize <==> e@ is MissingSize
            &&& e is MissingIncludePatterns <==> e@ is MissingIncludePatterns
            &&& e is MissingExcludePatterns <==> e@ is MissingExcludePatterns
            &&& e is MissingRepo <==> e@ is MissingRepo
            &&& e is InvalidSize ==> e@ == Refusal::InvalidSize(e->InvalidSize_0)
            &&& e is Unexpected ==> e@ == Refusal::Unexpected(e->Unexpected_0@)
        },
{
}

} // verus!
