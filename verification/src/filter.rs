//! Which files and directories the command line asks for.

use crate::args::Args;
use crate::args::ArgsView;
use crate::args::PatternType;
use crate::path::byte_strings;
use crate::path::components;
use crate::path::is_name;
use crate::path::joined;
use crate::path::law_join_adds_component;
use crate::path::text_of;
use crate::path::RawPath;
use crate::path::SLASH;
use crate::text::chars_of;
use crate::text::lemma_decoding_of_concat;
use crate::text::lemma_encoded_end;
use crate::text::lemma_encoded_start;
use crate::text::lemma_encoding_is_injective;
use crate::text::lemma_encoding_of_concat;
use crate::text::same_bytes;
use crate::text::texts;
use vstd::prelude::*;
use vstd::utf8::decode_utf8;
use vstd::utf8::decode_utf8_encode_utf8;
use vstd::utf8::encode_utf8;
use vstd::utf8::encode_utf8_decode_utf8;
use vstd::utf8::encode_utf8_valid_utf8;
use vstd::utf8::is_ascii_chars_encode_utf8;
use vstd::utf8::valid_utf8;

verus! {

/// Whether a pattern such as `*.rs` asks for the end of a path.
pub open spec fn is_suffix_pattern(pattern: Seq<char>) -> bool {
    pattern.len() >= 2 && pattern[0] == '*' && pattern[1] == '.'
}

/// Whether a pattern matches a path of the given text and components.
///
/// - `*.rs` matches what ends in `.rs`.
/// - `src/` matches what starts with `src/`.
/// - `src/main.rs` matches that path only.
/// - `target` matches what has a component of that name.
/// - The empty pattern matches nothing.
pub open spec fn pattern_matches(
    text: Seq<char>,
    parts: Seq<Seq<u8>>,
    pattern: Seq<char>,
) -> bool {
    if pattern.len() == 0 {
        false
    } else if is_suffix_pattern(pattern) {
        pattern.skip(1).is_suffix_of(text)
    } else if pattern.last() == '/' {
        pattern.is_prefix_of(text)
    } else if pattern.contains('/') {
        text == pattern
    } else {
        parts.contains(encode_utf8(pattern))
    }
}

/// Whether one of the patterns matches a path of the given text and components.
pub open spec fn matches_any(
    text: Seq<char>,
    parts: Seq<Seq<u8>>,
    patterns: Seq<Seq<char>>,
) -> bool {
    exists|i: int|
        0 <= i < patterns.len() && pattern_matches(text, parts, #[trigger] patterns[i])
}

/// Whether one of the patterns matches a path.
pub open spec fn path_matches(path: Seq<u8>, patterns: Seq<Seq<char>>) -> bool {
    matches_any(text_of(path), components(path), patterns)
}

fn has_suffix(text: &[char], pattern: &[char], from: usize) -> (found: bool)
    requires
        from <= pattern@.len(),
    ensures
        found == pattern@.skip(from as int).is_suffix_of(text@),
{
    let ghost suffix = pattern@.skip(from as int);
    let length: usize = pattern.len() - from;
    if length > text.len() {
        return false;
    }
    let start: usize = text.len() - length;
    let mut i: usize = 0;
    while i < length
        invariant
            suffix == pattern@.skip(from as int),
            from + length == pattern.len(),
            start + length == text.len(),
            i <= length,
            forall|k: int| 0 <= k < i ==> #[trigger] suffix[k] == text@[start + k],
        decreases length - i,
    {
        if text[start + i] != pattern[from + i] {
            assert(suffix[i as int] != text@.subrange(start as int, text@.len() as int)[i as int]);
            return false;
        }
        i += 1;
    }
    assert(suffix =~= text@.subrange(start as int, text@.len() as int));
    true
}

fn has_prefix(text: &[char], pattern: &[char]) -> (found: bool)
    ensures
        found == pattern@.is_prefix_of(text@),
{
    if pattern.len() > text.len() {
        return false;
    }
    let mut i: usize = 0;
    while i < pattern.len()
        invariant
            i <= pattern@.len() <= text@.len(),
            forall|k: int| 0 <= k < i ==> pattern@[k] == #[trigger] text@[k],
        decreases pattern@.len() - i,
    {
        if text[i] != pattern[i] {
            assert(pattern@[i as int] != text@.subrange(0, pattern@.len() as int)[i as int]);
            return false;
        }
        i += 1;
    }
    assert(pattern@ =~= text@.subrange(0, pattern@.len() as int));
    true
}

fn has_slash(pattern: &[char]) -> (found: bool)
    ensures
        found == pattern@.contains('/'),
{
    let mut i: usize = 0;
    while i < pattern.len()
        invariant
            i <= pattern@.len(),
            forall|k: int| 0 <= k < i ==> pattern@[k] != '/',
        decreases pattern@.len() - i,
    {
        if pattern[i] == '/' {
            return true;
        }
        i += 1;
    }
    false
}

fn has_part(parts: &Vec<Vec<u8>>, part: &[u8]) -> (found: bool)
    ensures
        found == byte_strings(parts@).contains(part@),
{
    let ghost all = byte_strings(parts@);
    let mut i: usize = 0;
    while i < parts.len()
        invariant
            i <= parts@.len(),
            all == byte_strings(parts@),
            forall|k: int| 0 <= k < i ==> all[k] != part@,
        decreases parts@.len() - i,
    {
        assert(all[i as int] == parts@[i as int]@);
        if same_bytes(parts[i].as_slice(), part) {
            return true;
        }
        i += 1;
    }
    false
}

fn is_match(text: &[char], parts: &Vec<Vec<u8>>, pattern: &str) -> (found: bool)
    ensures
        found == pattern_matches(text@, byte_strings(parts@), pattern@),
{
    let chars = chars_of(pattern);
    if chars.len() == 0 {
        false
    } else if chars.len() >= 2 && chars[0] == '*' && chars[1] == '.' {
        has_suffix(text, chars.as_slice(), 1)
    } else if chars[chars.len() - 1] == '/' {
        has_prefix(text, chars.as_slice())
    } else if has_slash(chars.as_slice()) {
        let found = chars.len() == text.len() && has_prefix(text, chars.as_slice());
        assert(text@.subrange(0, text@.len() as int) =~= text@);
        found
    } else {
        has_part(parts, pattern.as_bytes())
    }
}

/// Whether one of the patterns matches a path of the given text and components.
pub fn text_matches_patterns(text: &str, parts: &Vec<Vec<u8>>, patterns: &[String]) -> (found: bool)
    ensures
        found == matches_any(text@, byte_strings(parts@), texts(patterns@)),
{
    let chars = chars_of(text);
    let ghost all = texts(patterns@);
    let mut i: usize = 0;
    while i < patterns.len()
        invariant
            i <= patterns@.len(),
            chars@ == text@,
            all == texts(patterns@),
            forall|k: int|
                0 <= k < i ==> !pattern_matches(text@, byte_strings(parts@), #[trigger] all[k]),
        decreases patterns@.len() - i,
    {
        assert(all[i as int] == patterns@[i as int]@);
        if is_match(chars.as_slice(), parts, patterns[i].as_str()) {
            return true;
        }
        i += 1;
    }
    false
}

/// Whether the bytes of a path show that a pattern matches it: they end in those of `.rs` for
/// `*.rs`, or start with those of `src/` for `src/`.
pub open spec fn bytes_match(path: Seq<u8>, pattern: Seq<char>) -> bool {
    if is_suffix_pattern(pattern) {
        encode_utf8(pattern.skip(1)).is_suffix_of(path)
    } else {
        pattern.len() > 0 && pattern.last() == '/' && encode_utf8(pattern).is_prefix_of(path)
    }
}

/// Whether one of the patterns matches a path. Those for the start or the end of a path do so where
/// the bytes show it, also where the path as a whole is no UTF-8.
pub fn path_matches_patterns(relative_path: &RawPath, patterns: &[String]) -> (found: bool)
    ensures
        found == path_matches(relative_path@, texts(patterns@)),
        (exists|i: int|
            0 <= i < patterns@.len() && bytes_match(relative_path@, (#[trigger] patterns@[i])@))
            ==> found,
{
    let text = relative_path.text();
    let parts = relative_path.components();
    proof {
        let all = texts(patterns@);
        assert forall|i: int|
            0 <= i < patterns@.len() && bytes_match(
                relative_path@,
                (#[trigger] patterns@[i])@,
            ) implies path_matches(relative_path@, all) by {
            assert(all[i] == patterns@[i]@);
            assert(pattern_matches(text@, components(relative_path@), all[i]));
        }
    }
    text_matches_patterns(text.as_str(), &parts, patterns)
}

/// The directory that git keeps its own data in.
pub open spec fn git_dir() -> Seq<u8> {
    encode_utf8(".git"@)
}

/// Whether a path lies in the directory of git's own data, or is that directory.
pub open spec fn is_in_git_dir(path: Seq<u8>) -> bool {
    components(path).len() > 0 && components(path)[0] == git_dir()
}

/// Whether the files below a directory are looked at.
pub open spec fn is_entered(dir: Seq<u8>, args: ArgsView) -> bool {
    !is_in_git_dir(dir) && !(args.pattern_type is Exclude && path_matches(dir, args.patterns))
}

/// Whether the patterns let a file through. Without patterns nothing is left out, and nothing is
/// asked for either.
pub open spec fn passes_patterns(path: Seq<u8>, args: ArgsView) -> bool {
    match args.pattern_type {
        PatternType::Include => path_matches(path, args.patterns),
        PatternType::Exclude => !path_matches(path, args.patterns),
    }
}

/// Whether a file of `size` bytes is taken.
pub open spec fn is_taken(path: Seq<u8>, size: nat, args: ArgsView) -> bool {
    size <= args.max_file_size_kb * 1024 && passes_patterns(path, args)
}

/// Whether the files below the directory `relative_path` are looked at.
pub fn should_enter(relative_path: &RawPath, args: &Args) -> (enter: bool)
    ensures
        enter == is_entered(relative_path@, args@),
{
    let parts = relative_path.components();
    assert(byte_strings(parts@).len() == parts@.len());
    if parts.len() > 0 {
        assert(byte_strings(parts@)[0] == parts@[0]@);
        if same_bytes(parts[0].as_slice(), ".git".as_bytes()) {
            return false;
        }
    }
    !(args.pattern_type == PatternType::Exclude && path_matches_patterns(
        relative_path,
        args.patterns.as_slice(),
    ))
}

/// Whether the file `relative_path` of `size` bytes is taken.
pub fn should_keep(relative_path: &RawPath, size: u64, args: &Args) -> (keep: bool)
    ensures
        keep == is_taken(relative_path@, size as nat, args@),
{
    if size as u128 > args.max_file_size_kb as u128 * 1024 {
        return false;
    }
    if args.patterns.len() == 0 {
        assert(texts(args.patterns@).len() == 0);
        return args.pattern_type == PatternType::Exclude;
    }
    let found = path_matches_patterns(relative_path, args.patterns.as_slice());
    match args.pattern_type {
        PatternType::Include => found,
        PatternType::Exclude => !found,
    }
}

/// A list of patterns matches what one of its parts matches; so a longer list matches no less.
pub proof fn law_pattern_lists_add_up(path: Seq<u8>, a: Seq<Seq<char>>, b: Seq<Seq<char>>)
    ensures
        path_matches(path, a + b) <==> path_matches(path, a) || path_matches(path, b),
{
    let text = text_of(path);
    let parts = components(path);
    let both = a + b;
    if path_matches(path, a) {
        let i = choose|i: int| 0 <= i < a.len() && pattern_matches(text, parts, #[trigger] a[i]);
        assert(both[i] == a[i]);
    }
    if path_matches(path, b) {
        let i = choose|i: int| 0 <= i < b.len() && pattern_matches(text, parts, #[trigger] b[i]);
        assert(both[a.len() + i] == b[i]);
    }
    if path_matches(path, both) {
        let i = choose|i: int|
            0 <= i < both.len() && pattern_matches(text, parts, #[trigger] both[i]);
        if i < a.len() {
            assert(both[i] == a[i]);
        } else {
            assert(both[i] == b[i - a.len()]);
        }
    }
}

/// Empty patterns match nothing, and neither does an empty list.
pub proof fn law_empty_patterns_match_nothing(path: Seq<u8>, patterns: Seq<Seq<char>>)
    requires
        forall|i: int| 0 <= i < patterns.len() ==> (#[trigger] patterns[i]).len() == 0,
    ensures
        !path_matches(path, patterns),
{
}

/// The same patterns part the files that are small enough in two: those that are taken when
/// matching files are asked for, and those that are taken when matching files are left out.
pub proof fn law_filters_are_complementary(path: Seq<u8>, size: nat, args: ArgsView)
    requires
        size <= args.max_file_size_kb * 1024,
    ensures
        is_taken(path, size, ArgsView { pattern_type: PatternType::Include, ..args })
            != is_taken(path, size, ArgsView { pattern_type: PatternType::Exclude, ..args }),
{
}

/// Without patterns every file that is small enough is taken, and when matching files are asked
/// for, none is.
pub proof fn law_filters_without_patterns(path: Seq<u8>, size: nat, args: ArgsView)
    requires
        args.patterns.len() == 0,
    ensures
        args.pattern_type is Exclude ==> (is_taken(path, size, args) <==> size
            <= args.max_file_size_kb * 1024),
        args.pattern_type is Include ==> !is_taken(path, size, args),
        args.pattern_type is Exclude ==> (is_entered(path, args) <==> !is_in_git_dir(path)),
{
}

/// A pattern that is a name matches the entry of that name in every directory, and whatever it
/// matches it also matches with one component more: it covers all that lies below.
pub proof fn law_name_pattern(dir: Seq<u8>, name: Seq<char>, below: Seq<u8>)
    requires
        is_name(encode_utf8(name)),
        is_name(below),
        !is_suffix_pattern(name),
    ensures
        path_matches(joined(dir, encode_utf8(name)), seq![name]),
        path_matches(dir, seq![name]) ==> path_matches(joined(dir, below), seq![name]),
{
    let bytes = encode_utf8(name);
    let patterns = seq![name];
    assert(name.len() > 0) by {
        if name.len() == 0 {
            assert(bytes.len() == 0);
        }
    }
    assert(!name.contains('/')) by {
        if name.contains('/') {
            lemma_encoded_slash(name);
        }
    }
    assert(name.last() != '/') by {
        assert(name.contains(name.last()));
    }
    law_join_adds_component(dir, bytes);
    law_join_adds_component(dir, below);
    let parts = components(joined(dir, bytes));
    assert(parts[parts.len() - 1] == bytes);
    assert(pattern_matches(text_of(joined(dir, bytes)), parts, patterns[0]));
    if path_matches(dir, patterns) {
        assert(pattern_matches(text_of(dir), components(dir), patterns[0]));
        let k = choose|k: int| 0 <= k < components(dir).len() && components(dir)[k] == bytes;
        assert(components(joined(dir, below))[k] == bytes);
        assert(pattern_matches(
            text_of(joined(dir, below)),
            components(joined(dir, below)),
            patterns[0],
        ));
    }
}

proof fn lemma_slash_encoding()
    ensures
        encode_utf8(seq!['/']) == seq![SLASH],
{
    is_ascii_chars_encode_utf8(seq!['/']);
    assert(encode_utf8(seq!['/']) =~= seq![SLASH]);
}

proof fn lemma_encoded_slash(text: Seq<char>)
    requires
        text.contains('/'),
    ensures
        encode_utf8(text).contains(SLASH),
{
    let k = choose|k: int| 0 <= k < text.len() && text[k] == '/';
    let head = text.take(k);
    let tail = text.skip(k + 1);
    assert(text =~= head + seq!['/'] + tail);
    lemma_encoding_of_concat(head, seq!['/']);
    lemma_encoding_of_concat(head + seq!['/'], tail);
    lemma_slash_encoding();
    assert(encode_utf8(text)[encode_utf8(head).len() as int] == SLASH);
}

/// A pattern that is a directory's text and a slash matches all that lies below the directory,
/// and not the directory itself.
pub proof fn law_directory_pattern(dir: Seq<char>, rest: Seq<u8>)
    requires
        dir.len() > 0,
        !is_suffix_pattern(dir),
        dir != seq!['*'],
        valid_utf8(rest),
    ensures
        path_matches(encode_utf8(dir).push(SLASH) + rest, seq![dir.push('/')]),
        !path_matches(encode_utf8(dir), seq![dir.push('/')]),
{
    let pattern = dir.push('/');
    let patterns = seq![pattern];
    let bytes = encode_utf8(dir);
    let path = bytes.push(SLASH) + rest;
    let slash = seq!['/'];
    assert(!is_suffix_pattern(pattern)) by {
        if is_suffix_pattern(pattern) {
            if dir.len() == 1 {
                assert(dir =~= seq!['*']);
            } else {
                assert(dir[0] == pattern[0] && dir[1] == pattern[1]);
            }
        }
    }
    encode_utf8_valid_utf8(dir);
    encode_utf8_decode_utf8(dir);
    encode_utf8_valid_utf8(slash);
    encode_utf8_decode_utf8(slash);
    lemma_slash_encoding();
    lemma_decoding_of_concat(bytes, encode_utf8(slash));
    assert(bytes + encode_utf8(slash) =~= bytes.push(SLASH));
    lemma_decoding_of_concat(bytes.push(SLASH), rest);
    assert(dir + slash =~= pattern);
    assert(text_of(path) == pattern + decode_utf8(rest));
    assert((pattern + decode_utf8(rest)).subrange(0, pattern.len() as int) =~= pattern);
    assert(pattern_matches(text_of(path), components(path), patterns[0]));
    assert(!pattern.is_prefix_of(text_of(bytes)));
}

proof fn lemma_one_pattern(path: Seq<u8>, pattern: Seq<char>)
    ensures
        path_matches(path, seq![pattern]) <==> pattern_matches(
            text_of(path),
            components(path),
            pattern,
        ),
{
    let patterns = seq![pattern];
    assert(patterns[0] == pattern);
}

proof fn lemma_text_of_valid(path: Seq<u8>)
    requires
        valid_utf8(path),
    ensures
        encode_utf8(text_of(path)) == path,
{
    decode_utf8_encode_utf8(path);
}

/// A list of patterns matches what one of them matches alone.
pub proof fn law_patterns_match_one_by_one(path: Seq<u8>, patterns: Seq<Seq<char>>)
    ensures
        path_matches(path, patterns) <==> exists|i: int|
            0 <= i < patterns.len() && path_matches(path, seq![#[trigger] patterns[i]]),
{
    assert forall|i: int| 0 <= i < patterns.len() implies (path_matches(
        path,
        seq![#[trigger] patterns[i]],
    ) <==> pattern_matches(text_of(path), components(path), patterns[i])) by {
        lemma_one_pattern(path, patterns[i]);
    }
    if path_matches(path, patterns) {
        let i = choose|i: int|
            0 <= i < patterns.len() && pattern_matches(
                text_of(path),
                components(path),
                #[trigger] patterns[i],
            );
        assert(path_matches(path, seq![patterns[i]]));
    }
}

/// A pattern of a star, a dot and some more matches exactly the paths that end with the dot and
/// the rest. Where the path is UTF-8 its bytes end with theirs.
pub proof fn law_suffix_pattern(path: Seq<u8>, rest: Seq<char>)
    ensures
        path_matches(path, seq![seq!['*', '.'] + rest]) <==> (seq!['.'] + rest).is_suffix_of(
            text_of(path),
        ),
        valid_utf8(path) ==> (path_matches(path, seq![seq!['*', '.'] + rest]) <==> encode_utf8(
            seq!['.'] + rest,
        ).is_suffix_of(path)),
{
    let pattern = seq!['*', '.'] + rest;
    let end = seq!['.'] + rest;
    lemma_one_pattern(path, pattern);
    assert(pattern.skip(1) =~= end);
    if valid_utf8(path) {
        lemma_text_of_valid(path);
        lemma_encoded_end(end, text_of(path));
    }
}

/// A pattern that ends with a slash, and does not start with a star and a dot, matches exactly the
/// paths that start with it, the slash with them. Where the path is UTF-8 its bytes start with
/// those of the pattern.
pub proof fn law_prefix_pattern(path: Seq<u8>, front: Seq<char>)
    requires
        front.len() < 2 || front[0] != '*' || front[1] != '.',
    ensures
        path_matches(path, seq![front.push('/')]) <==> front.push('/').is_prefix_of(text_of(path)),
        valid_utf8(path) ==> (path_matches(path, seq![front.push('/')]) <==> encode_utf8(
            front.push('/'),
        ).is_prefix_of(path)),
{
    let pattern = front.push('/');
    lemma_one_pattern(path, pattern);
    if front.len() == 1 {
        assert(pattern[1] == '/');
    } else if front.len() >= 2 {
        assert(pattern[0] == front[0] && pattern[1] == front[1]);
    }
    if valid_utf8(path) {
        lemma_text_of_valid(path);
        lemma_encoded_start(pattern, text_of(path));
    }
}

/// A pattern with a slash inside that neither ends with one nor starts with a star and a dot
/// matches one path, that which it writes.
pub proof fn law_exact_pattern(path: Seq<u8>, front: Seq<char>, back: Seq<char>)
    requires
        back.len() > 0,
        back.last() != '/',
        front.len() < 2 || front[0] != '*' || front[1] != '.',
    ensures
        path_matches(path, seq![front.push('/') + back]) <==> text_of(path) == front.push('/')
            + back,
        valid_utf8(path) ==> (path_matches(path, seq![front.push('/') + back]) <==> path
            == encode_utf8(front.push('/') + back)),
{
    let pattern = front.push('/') + back;
    lemma_one_pattern(path, pattern);
    assert(pattern[front.len() as int] == '/');
    assert(pattern.contains('/'));
    if front.len() == 1 {
        assert(pattern[1] == '/');
    } else if front.len() >= 2 {
        assert(pattern[0] == front[0] && pattern[1] == front[1]);
    }
    if valid_utf8(path) {
        lemma_text_of_valid(path);
        lemma_encoding_is_injective(pattern, text_of(path));
    }
}

/// A pattern without slashes that does not start with a star and a dot matches exactly the paths
/// that have it as a component.
pub proof fn law_component_pattern(path: Seq<u8>, pattern: Seq<char>)
    requires
        pattern.len() > 0,
        !pattern.contains('/'),
        pattern.len() < 2 || pattern[0] != '*' || pattern[1] != '.',
    ensures
        path_matches(path, seq![pattern]) <==> components(path).contains(encode_utf8(pattern)),
{
    lemma_one_pattern(path, pattern);
    assert(pattern.contains(pattern.last()));
}

/// When matching files are asked for, every directory is entered whatever the patterns are, but for
/// `.git` in the top directory and what lies below it.
pub proof fn law_include_enters_all(dir: Seq<u8>, args: ArgsView)
    requires
        args.pattern_type is Include,
    ensures
        is_entered(dir, args) <==> components(dir).len() == 0 || components(dir)[0] != seq![
            46u8,
            103u8,
            105u8,
            116u8,
        ],
{
    lemma_git_dir();
}

proof fn lemma_git_dir()
    ensures
        git_dir() == seq![46u8, 103u8, 105u8, 116u8],
{
    reveal_strlit(".git");
    is_ascii_chars_encode_utf8(".git"@);
    assert(git_dir() =~= seq![46u8, 103u8, 105u8, 116u8]);
}

/// When matching files are left out, so are the directories that match: those that do not match
/// are entered, but for `.git` in the top directory and what lies below it.
pub proof fn law_exclude_enters_the_rest(dir: Seq<u8>, args: ArgsView)
    requires
        args.pattern_type is Exclude,
    ensures
        path_matches(dir, args.patterns) ==> !is_entered(dir, args),
        !path_matches(dir, args.patterns) ==> (is_entered(dir, args) <==> components(dir).len() == 0
            || components(dir)[0] != seq![46u8, 103u8, 105u8, 116u8]),
{
    lemma_git_dir();
}

/// A file is taken by its size and by whether it matches, and by nothing else: no file above the
/// limit is taken, and of the others those that match where matching files are asked for, and those
/// that do not match where they are left out.
pub proof fn law_taken_by_size_and_match(path: Seq<u8>, size: nat, args: ArgsView)
    ensures
        size > args.max_file_size_kb * 1024 ==> !is_taken(path, size, args),
        size <= args.max_file_size_kb * 1024 && args.pattern_type is Include ==> (is_taken(
            path,
            size,
            args,
        ) <==> path_matches(path, args.patterns)),
        size <= args.max_file_size_kb * 1024 && args.pattern_type is Exclude ==> (is_taken(
            path,
            size,
            args,
        ) <==> !path_matches(path, args.patterns)),
{
}

/// A text and some components are matched apart from each other: patterns for the end, the start or
/// the whole of a path go by the text alone, and the others by the components alone.
pub proof fn law_text_and_components_apart(
    text: Seq<char>,
    parts: Seq<Seq<u8>>,
    pattern: Seq<char>,
)
    ensures
        pattern.len() > 0 && (pattern.contains('/') || "*."@.is_prefix_of(pattern)) ==> (
        matches_any(text, parts, seq![pattern]) <==> if "*."@.is_prefix_of(pattern) {
            pattern.drop_first().is_suffix_of(text)
        } else {
            pattern == text || (pattern.last() == '/' && pattern.is_prefix_of(text))
        }),
        pattern.len() > 0 && !pattern.contains('/') && !"*."@.is_prefix_of(pattern) ==> (
        matches_any(text, parts, seq![pattern]) <==> parts.contains(encode_utf8(pattern))),
        !matches_any(text, parts, seq![Seq::empty()]),
{
    let patterns = seq![pattern];
    assert(patterns[0] == pattern);
    reveal_strlit("*.");
    assert("*."@.is_prefix_of(pattern) <==> is_suffix_pattern(pattern)) by {
        if is_suffix_pattern(pattern) {
            assert("*."@ =~= pattern.subrange(0, 2));
        }
        if "*."@.is_prefix_of(pattern) {
            assert(pattern[0] == pattern.subrange(0, 2)[0]);
            assert(pattern[1] == pattern.subrange(0, 2)[1]);
        }
    }
    assert(pattern.len() > 0 ==> pattern.contains(pattern.last()));
    assert(pattern.skip(1) =~= pattern.drop_first());
    if pattern == text {
        assert(text.subrange(0, text.len() as int) =~= text);
    }
}

} // verus!
