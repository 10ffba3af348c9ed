//! The text of a digest.

use crate::args::Args;
use crate::args::ArgsView;
use crate::args::PatternType;
use crate::path::decode_lossy;
use crate::path::law_text_is_what_bytes_encode;
use crate::path::raw;
use crate::path::text_of;
use crate::path::RawPath;
use crate::text::decimal;
use crate::text::join;
use crate::text::law_decimal_round_trip;
use crate::text::law_join_then_split;
use crate::text::lemma_decimal_digits;
use crate::text::read_number;
use crate::text::split;
use crate::text::texts;
use crate::text::to_decimal;
use crate::text::NumberError;
use crate::tree::build_tree;
use crate::tree::is_tree_of;
use crate::tree::print_tree;
use crate::tree::TreeNode;
use vstd::prelude::*;
use vstd::utf8::encode_utf8;

verus! {

/// The text that the `Debug` format of `str` gives.
pub uninterp spec fn debug_text(s: Seq<char>) -> Seq<char>;

/// Whether a text has nothing to escape: it is made of printable ASCII characters, without quotes
/// and backslashes.
pub open spec fn is_plain(s: Seq<char>) -> bool {
    forall|i: int|
        0 <= i < s.len() ==> ' ' <= #[trigger] s[i] <= '~' && s[i] != '"' && s[i] != '\\'
}

/// A text between quotes, with escapes where it needs them.
pub open spec fn quoted(s: Seq<char>) -> Seq<char> {
    if is_plain(s) {
        seq!['"'] + s + seq!['"']
    } else {
        debug_text(s)
    }
}

/// `format!` with the `Debug` format of `str` puts a text between quotes and escapes characters in
/// it. A plain text has nothing to escape. How others are escaped is left to the name
/// `debug_text`.
#[verifier::external_body]
pub(crate) fn quote(s: &str) -> (q: String)
    ensures
        q@ == (if is_plain(s@) {
            seq!['"'] + s@ + seq!['"']
        } else {
            debug_text(s@)
        }),
{
    format!("{:?}", s)
}

/// The text of a list of quoted patterns.
pub open spec fn list_text(items: Seq<Seq<char>>) -> Seq<char> {
    "["@ + join(items, ", "@) + "]"@
}

/// The name of a filter.
pub open spec fn filter_name(pattern_type: PatternType) -> Seq<char> {
    match pattern_type {
        PatternType::Include => "Include"@,
        PatternType::Exclude => "Exclude"@,
    }
}

/// The lines of the summary on the filter, with the patterns already quoted.
pub open spec fn filter_lines(pattern_type: PatternType, items: Seq<Seq<char>>) -> Seq<char> {
    if items.len() == 0 {
        Seq::empty()
    } else {
        "  - Filter type: "@ + filter_name(pattern_type) + "\n  - Filter patterns: "@ + list_text(
            items,
        ) + "\n"@
    }
}

/// The summary at the head of a digest of `files` files with `bytes` bytes in all, with the
/// patterns already quoted.
pub open spec fn summary_text(
    args: ArgsView,
    items: Seq<Seq<char>>,
    files: nat,
    bytes: nat,
) -> Seq<char> {
    "Repository: https://github.com/"@ + args.repo + "\n---\nSummary:\n  - Total files included: "@
        + decimal(files) + "\n  - Total size: ~"@ + decimal(bytes / 1024)
        + " KB\n  - Max file size: "@ + decimal(args.max_file_size_kb as nat) + " KB\n"@
        + filter_lines(args.pattern_type, items) + "\n---\n"@
}

/// The patterns, each between quotes.
pub open spec fn quoted_patterns(args: ArgsView) -> Seq<Seq<char>> {
    args.patterns.map_values(|p: Seq<char>| quoted(p))
}

/// The text of a list of quoted patterns.
pub fn pattern_list_text(items: &[String]) -> (text: String)
    ensures
        text@ == list_text(texts(items@)),
{
    let ghost all = texts(items@);
    let mut text = "[".to_owned();
    let mut i: usize = 0;
    assert("["@ + join(all.take(0), ", "@) =~= "["@);
    while i < items.len()
        invariant
            i <= items@.len(),
            all == texts(items@),
            text@ == "["@ + join(all.take(i as int), ", "@),
        decreases items@.len() - i,
    {
        let ghost so_far = join(all.take(i as int), ", "@);
        assert(all.take(i + 1).drop_last() =~= all.take(i as int));
        assert(all.take(i + 1).last() == items@[i as int]@);
        if i > 0 {
            text.append(", ");
            assert(join(all.take(i + 1), ", "@) == so_far + ", "@ + items@[i as int]@);
        } else {
            assert(so_far =~= Seq::empty());
            assert(join(all.take(1), ", "@) == items@[0]@);
        }
        text.append(items[i].as_str());
        assert(text@ =~= "["@ + join(all.take(i + 1), ", "@));
        i += 1;
    }
    assert(all.take(all.len() as int) =~= all);
    text.append("]");
    text
}

/// The summary, with the patterns already quoted.
pub fn summary_with(args: &Args, items: &[String], files: usize, bytes: u64) -> (text: String)
    ensures
        text@ == summary_text(args@, texts(items@), files as nat, bytes as nat),
{
    let mut text = "Repository: https://github.com/".to_owned();
    text.append(args.repo.as_str());
    text.append("\n---\nSummary:\n  - Total files included: ");
    text.append(to_decimal(files as u128).as_str());
    text.append("\n  - Total size: ~");
    text.append(to_decimal((bytes / 1024) as u128).as_str());
    text.append(" KB\n  - Max file size: ");
    text.append(to_decimal(args.max_file_size_kb as u128).as_str());
    text.append(" KB\n");
    let ghost head = text@;
    if items.len() > 0 {
        text.append("  - Filter type: ");
        text.append(
            match args.pattern_type {
                PatternType::Include => "Include",
                PatternType::Exclude => "Exclude",
            },
        );
        text.append("\n  - Filter patterns: ");
        text.append(pattern_list_text(items).as_str());
        text.append("\n");
    }
    assert(text@ =~= head + filter_lines(args.pattern_type, texts(items@)));
    text.append("\n---\n");
    text
}

/// The summary of a digest of `files` files with `bytes` bytes in all.
pub fn summary(args: &Args, files: usize, bytes: u64) -> (text: String)
    ensures
        text@ == summary_text(args@, quoted_patterns(args@), files as nat, bytes as nat),
{
    let mut items: Vec<String> = Vec::new();
    let mut i: usize = 0;
    while i < args.patterns.len()
        invariant
            i <= args.patterns@.len(),
            items@.len() == i,
            forall|k: int|
                0 <= k < i ==> (#[trigger] items@[k])@ == quoted(args.patterns@[k]@),
        decreases args.patterns@.len() - i,
    {
        items.push(quote(args.patterns[i].as_str()));
        i += 1;
    }
    assert(texts(items@) =~= quoted_patterns(args@));
    summary_with(args, items.as_slice(), files, bytes)
}

/// The sum of some sizes.
pub open spec fn sum(sizes: Seq<u64>) -> nat
    decreases sizes.len(),
{
    if sizes.len() == 0 {
        0
    } else {
        sum(sizes.drop_last()) + sizes.last() as nat
    }
}

/// The sum of some sizes, where it is at most 64 bits long.
pub fn total_size(sizes: &[u64]) -> (total: Option<u64>)
    ensures
        total is Some <==> sum(sizes@) <= u64::MAX,
        total is Some ==> total->0 == sum(sizes@),
{
    let mut total: u64 = 0;
    let mut i: usize = 0;
    while i < sizes.len()
        invariant
            i <= sizes@.len(),
            total == sum(sizes@.take(i as int)),
        decreases sizes@.len() - i,
    {
        assert(sizes@.take(i + 1).drop_last() =~= sizes@.take(i as int));
        proof {
            lemma_sum_grows(sizes@, i + 1);
        }
        if sizes[i] > u64::MAX - total {
            return None;
        }
        total = total + sizes[i];
        i += 1;
    }
    assert(sizes@.take(sizes@.len() as int) =~= sizes@);
    Some(total)
}

proof fn lemma_sum_grows(sizes: Seq<u64>, i: int)
    requires
        0 <= i <= sizes.len(),
    ensures
        sum(sizes.take(i)) <= sum(sizes),
    decreases sizes.len() - i,
{
    if i == sizes.len() {
        assert(sizes.take(i) =~= sizes);
    } else {
        lemma_sum_grows(sizes, i + 1);
        assert(sizes.take(i + 1).drop_last() =~= sizes.take(i));
    }
}

/// The part of a digest that draws a tree.
pub open spec fn structure_text(tree: TreeNode) -> Seq<char> {
    "Directory Structure:\n"@ + tree.drawing(Seq::empty()) + "\n---\n"@
}

/// The part of a digest that draws the tree of the files.
pub fn directory_structure(files: &[RawPath]) -> (text: String)
    ensures
        exists|tree: TreeNode|
            #[trigger] is_tree_of(tree, raw(files@)) && text@ == structure_text(tree),
{
    let tree = build_tree(files);
    let mut text = "Directory Structure:\n".to_owned();
    let top = String::new();
    print_tree(&tree, top.as_str(), &mut text);
    text.append("\n---\n");
    assert(top@ =~= Seq::empty());
    assert(is_tree_of(tree, raw(files@)));
    text
}

/// A digest up to the contents of the first file: the summary, the drawing of the tree, and the
/// head of the contents.
pub open spec fn opening_text(args: ArgsView, tree: TreeNode, files: nat, bytes: nat) -> Seq<char> {
    summary_text(args, quoted_patterns(args), files, bytes) + structure_text(tree)
        + "File Contents:\n"@
}

/// A digest up to the contents of the first file.
pub fn opening(args: &Args, files: &[RawPath], bytes: u64) -> (text: String)
    ensures
        exists|tree: TreeNode|
            #[trigger] is_tree_of(tree, raw(files@)) && text@ == opening_text(
                args@,
                tree,
                files@.len(),
                bytes as nat,
            ),
{
    let mut text = summary(args, files.len(), bytes);
    text.append(directory_structure(files).as_str());
    text.append("File Contents:\n");
    text
}

/// The part of a digest on one file: a line with its path, then its contents, or why it cannot be
/// read.
pub open spec fn section_text(path: Seq<char>, contents: Result<Seq<char>, Seq<char>>) -> Seq<char> {
    "\n--- "@ + path + " ---\n"@ + match contents {
        Ok(contents) => contents,
        Err(reason) => "Error reading file: "@ + reason + "\n"@,
    }
}

/// The part of a digest on one file, given its path and contents as text.
pub fn section(path: &str, contents: &Result<String, String>) -> (text: String)
    ensures
        text@ == section_text(
            path@,
            match *contents {
                Ok(contents) => Ok(contents@),
                Err(reason) => Err(reason@),
            },
        ),
{
    let mut text = "\n--- ".to_owned();
    text.append(path);
    text.append(" ---\n");
    let ghost head = text@;
    match contents {
        Ok(contents) => {
            text.append(contents.as_str());
        },
        Err(reason) => {
            text.append("Error reading file: ");
            text.append(reason.as_str());
            text.append("\n");
            assert(text@ =~= head + ("Error reading file: "@ + reason@ + "\n"@));
        },
    }
    text
}

/// The bytes of a file, or why they cannot be read.
pub open spec fn contents_of(contents: Result<Vec<u8>, String>) -> Result<Seq<u8>, Seq<char>> {
    match contents {
        Ok(bytes) => Ok(bytes@),
        Err(reason) => Err(reason@),
    }
}

/// The part of a digest on one file, given its path and its bytes, or why they cannot be read.
pub open spec fn file_text(path: Seq<u8>, contents: Result<Seq<u8>, Seq<char>>) -> Seq<char> {
    section_text(
        text_of(path),
        match contents {
            Ok(bytes) => Ok(text_of(bytes)),
            Err(reason) => Err(reason),
        },
    )
}

/// The part of a digest on one file.
pub fn file_section(path: &RawPath, contents: &Result<Vec<u8>, String>) -> (text: String)
    ensures
        text@ == file_text(path@, contents_of(*contents)),
{
    let name = path.text();
    match contents {
        Ok(bytes) => section(name.as_str(), &Ok(decode_lossy(bytes.as_slice()))),
        Err(reason) => section(name.as_str(), &Err(reason.clone())),
    }
}

/// A digest that is being written, part by part: the files that are still to come.
#[derive(Debug)]
pub struct Digest {
    files: Vec<RawPath>,
    next: usize,
}

impl View for Digest {
    type V = Seq<Seq<u8>>;

    closed spec fn view(&self) -> Seq<Seq<u8>> {
        raw(self.files@).skip(self.next as int)
    }
}

impl Digest {
    #[verifier::type_invariant]
    spec fn is_within(self) -> bool {
        self.next <= self.files@.len()
    }

    /// Starts the digest of some files with `bytes` bytes in all. Its first part is the summary,
    /// the drawing of the tree, and the head of the contents.
    pub fn new(args: &Args, files: Vec<RawPath>, bytes: u64) -> (start: (Digest, String))
        ensures
            start.0@ == raw(files@),
            exists|tree: TreeNode|
                #[trigger] is_tree_of(tree, raw(files@)) && start.1@ == opening_text(
                    args@,
                    tree,
                    files@.len(),
                    bytes as nat,
                ),
    {
        let text = opening(args, files.as_slice(), bytes);
        let digest = Digest { files, next: 0 };
        assert(digest@ =~= raw(files@));
        (digest, text)
    }

    /// The file whose contents come next.
    pub fn wanted(&self) -> (path: Option<&RawPath>)
        ensures
            path is Some <==> self@.len() > 0,
            path is Some ==> path->0@ == self@[0],
    {
        proof {
            use_type_invariant(self);
        }
        if self.next < self.files.len() {
            assert(self@[0] == self.files@[self.next as int]@);
            Some(&self.files[self.next])
        } else {
            None
        }
    }

    /// Goes on with the contents of the file that comes next. Returns the part of the digest on
    /// that file.
    pub fn add(&mut self, contents: &Result<Vec<u8>, String>) -> (text: String)
        requires
            old(self)@.len() > 0,
        ensures
            final(self)@ == old(self)@.drop_first(),
            text@ == file_text(old(self)@[0], contents_of(*contents)),
    {
        proof {
            use_type_invariant(&*self);
        }
        let ghost before = self@;
        assert(before[0] == self.files@[self.next as int]@);
        assert(self.next < self.files.len());
        let text = file_section(&self.files[self.next], contents);
        self.next = self.next + 1;
        assert(self@ =~= before.drop_first());
        text
    }
}

/// The parts of a digest on some files, one after the other.
pub open spec fn files_text(
    paths: Seq<Seq<u8>>,
    contents: Seq<Result<Seq<u8>, Seq<char>>>,
) -> Seq<char>
    decreases paths.len(),
{
    if paths.len() == 0 {
        Seq::empty()
    } else {
        files_text(paths.drop_last(), contents.drop_last()) + file_text(
            paths.last(),
            contents.last(),
        )
    }
}

/// The files that are still to come and the text that is written, after some contents were added.
pub open spec fn after_additions(
    rest: Seq<Seq<u8>>,
    written: Seq<char>,
    contents: Seq<Result<Seq<u8>, Seq<char>>>,
) -> (Seq<Seq<u8>>, Seq<char>)
    decreases contents.len(),
{
    if contents.len() == 0 {
        (rest, written)
    } else {
        let (rest, written) = after_additions(rest, written, contents.drop_last());
        (rest.drop_first(), written + file_text(rest[0], contents.last()))
    }
}

/// A digest that is written part by part ends with the contents of all files, in the order in
/// which the files are listed, and no file is left over.
pub proof fn law_parts_make_the_digest(
    paths: Seq<Seq<u8>>,
    opening: Seq<char>,
    contents: Seq<Result<Seq<u8>, Seq<char>>>,
)
    requires
        contents.len() == paths.len(),
    ensures
        after_additions(paths, opening, contents) == (
            Seq::<Seq<u8>>::empty(),
            opening + files_text(paths, contents),
        ),
{
    lemma_first_parts(paths, opening, contents, contents.len() as int);
    assert(paths.take(paths.len() as int) =~= paths);
    assert(contents.take(contents.len() as int) =~= contents);
    assert(paths.skip(paths.len() as int) =~= Seq::empty());
}

proof fn lemma_first_parts(
    paths: Seq<Seq<u8>>,
    opening: Seq<char>,
    contents: Seq<Result<Seq<u8>, Seq<char>>>,
    count: int,
)
    requires
        contents.len() == paths.len(),
        0 <= count <= paths.len(),
    ensures
        after_additions(paths, opening, contents.take(count)) == (
            paths.skip(count),
            opening + files_text(paths.take(count), contents.take(count)),
        ),
    decreases count,
{
    if count == 0 {
        assert(paths.skip(0) =~= paths);
        assert(opening + files_text(paths.take(0), contents.take(0)) =~= opening);
    } else {
        lemma_first_parts(paths, opening, contents, count - 1);
        let before = files_text(paths.take(count - 1), contents.take(count - 1));
        let part = file_text(paths[count - 1], contents[count - 1]);
        assert(contents.take(count).drop_last() =~= contents.take(count - 1));
        assert(paths.take(count).drop_last() =~= paths.take(count - 1));
        assert(paths.skip(count - 1).drop_first() =~= paths.skip(count));
        assert((opening + before) + part =~= opening + (before + part));
    }
}

/// The access token does not show in a summary.
pub proof fn law_summary_hides_token(
    args: ArgsView,
    token: Option<Seq<char>>,
    files: nat,
    bytes: nat,
)
    ensures
        summary_text(ArgsView { token, ..args }, quoted_patterns(ArgsView { token, ..args }), files,
            bytes) == summary_text(args, quoted_patterns(args), files, bytes),
{
}

/// The lines of a summary that tell of the filter: none where there are no patterns.
spec fn lines_on_filter(
    pattern_type: PatternType,
    items: Seq<Seq<char>>,
) -> Seq<Seq<char>> {
    if items.len() == 0 {
        Seq::empty()
    } else {
        seq![
            "  - Filter type: "@ + (if pattern_type is Include {
                "Include"@
            } else {
                "Exclude"@
            }),
            "  - Filter patterns: ["@ + join(items, ", "@) + "]"@,
        ]
    }
}

/// The lines of a summary: the address of the repository, the number of files, their size in whole
/// kilobytes, the size limit that was asked for, and the filter.
spec fn lines_of_summary(
    args: ArgsView,
    items: Seq<Seq<char>>,
    files: nat,
    bytes: nat,
) -> Seq<Seq<char>> {
    let limit = args.max_file_size_kb as nat;
    seq![
        "Repository: https://github.com/"@ + args.repo,
        "---"@,
        "Summary:"@,
        "  - Total files included: "@ + decimal(files),
        "  - Total size: ~"@ + decimal(bytes / 1024) + " KB"@,
        "  - Max file size: "@ + decimal(limit) + " KB"@,
    ] + lines_on_filter(args.pattern_type, items) + seq![
        Seq::<char>::empty(),
        "---"@,
        Seq::<char>::empty(),
    ]
}

proof fn lemma_join_push(lines: Seq<Seq<char>>, line: Seq<char>)
    requires
        lines.len() > 0,
    ensures
        join(lines.push(line), seq!['\n']) == join(lines, seq!['\n']) + seq!['\n'] + line,
{
    assert(lines.push(line).drop_last() =~= lines);
}

proof fn lemma_literals_of_summary()
    ensures
        "\n---\nSummary:\n  - Total files included: "@ == seq!['\n'] + "---"@ + seq!['\n']
            + "Summary:"@ + seq!['\n'] + "  - Total files included: "@,
        "\n  - Total size: ~"@ == seq!['\n'] + "  - Total size: ~"@,
        " KB\n  - Max file size: "@ == " KB"@ + seq!['\n'] + "  - Max file size: "@,
        " KB\n"@ == " KB"@ + seq!['\n'],
        "\n  - Filter patterns: "@ + "["@ == seq!['\n'] + "  - Filter patterns: ["@,
        "\n"@ == seq!['\n'],
        "\n---\n"@ == seq!['\n'] + "---"@ + seq!['\n'],
{
    reveal_strlit("\n---\nSummary:\n  - Total files included: ");
    reveal_strlit("---");
    reveal_strlit("Summary:");
    reveal_strlit("  - Total files included: ");
    reveal_strlit("\n  - Total size: ~");
    reveal_strlit("  - Total size: ~");
    reveal_strlit(" KB\n  - Max file size: ");
    reveal_strlit(" KB");
    reveal_strlit("  - Max file size: ");
    reveal_strlit(" KB\n");
    reveal_strlit("\n  - Filter patterns: ");
    reveal_strlit("[");
    reveal_strlit("  - Filter patterns: [");
    reveal_strlit("\n");
    reveal_strlit("\n---\n");
    assert("\n---\nSummary:\n  - Total files included: "@ =~= seq!['\n'] + "---"@ + seq!['\n']
        + "Summary:"@ + seq!['\n'] + "  - Total files included: "@);
    assert("\n  - Total size: ~"@ =~= seq!['\n'] + "  - Total size: ~"@);
    assert(" KB\n  - Max file size: "@ =~= " KB"@ + seq!['\n'] + "  - Max file size: "@);
    assert(" KB\n"@ =~= " KB"@ + seq!['\n']);
    assert("\n  - Filter patterns: "@ + "["@ =~= seq!['\n'] + "  - Filter patterns: ["@);
    assert("\n"@ =~= seq!['\n']);
    assert("\n---\n"@ =~= seq!['\n'] + "---"@ + seq!['\n']);
}

proof fn lemma_filter_as_lines(pattern_type: PatternType, items: Seq<Seq<char>>)
    requires
        items.len() > 0,
    ensures
        filter_lines(pattern_type, items) == lines_on_filter(pattern_type, items)[0] + seq!['\n']
            + lines_on_filter(pattern_type, items)[1] + seq!['\n'],
{
    let list = join(items, ", "@);
    let between = "\n  - Filter patterns: "@;
    let first = "  - Filter type: "@ + filter_name(pattern_type);
    lemma_literals_of_summary();
    assert(between + list_text(items) =~= between + "["@ + list + "]"@);
    assert(seq!['\n'] + "  - Filter patterns: ["@ + list + "]"@ =~= seq!['\n'] + (
    "  - Filter patterns: ["@ + list + "]"@));
    assert(first + between + list_text(items) =~= first + (between + list_text(items)));
    let second = "  - Filter patterns: ["@ + list + "]"@;
    assert(first + (seq!['\n'] + second) =~= first + seq!['\n'] + second);
    assert(lines_on_filter(pattern_type, items)[0] == first);
    assert(lines_on_filter(pattern_type, items)[1] == second);
}

/// The summary up to the filter, and the first lines.
proof fn lemma_head_as_lines(repo: Seq<char>, files: nat, bytes: nat, limit: nat)
    ensures
        "Repository: https://github.com/"@ + repo
            + "\n---\nSummary:\n  - Total files included: "@ + decimal(files)
            + "\n  - Total size: ~"@ + decimal(bytes / 1024) + " KB\n  - Max file size: "@ + decimal(
            limit,
        ) + " KB\n"@ == join(
            seq![
                "Repository: https://github.com/"@ + repo,
                "---"@,
                "Summary:"@,
                "  - Total files included: "@ + decimal(files),
                "  - Total size: ~"@ + decimal(bytes / 1024) + " KB"@,
                "  - Max file size: "@ + decimal(limit) + " KB"@,
            ],
            seq!['\n'],
        ) + seq!['\n'],
{
    let end = seq!['\n'];
    let a = "Repository: https://github.com/"@ + repo;
    let d = "  - Total files included: "@ + decimal(files);
    let x = "  - Total size: ~"@;
    let e = x + decimal(bytes / 1024) + " KB"@;
    let y = "  - Max file size: "@;
    let n = decimal(limit);
    let f = y + n + " KB"@;
    let l1 = seq![a];
    let l2 = l1.push("---"@);
    let l3 = l2.push("Summary:"@);
    let l4 = l3.push(d);
    let l5 = l4.push(e);
    let l6 = l5.push(f);
    lemma_join_push(l1, "---"@);
    lemma_join_push(l2, "Summary:"@);
    lemma_join_push(l3, d);
    lemma_join_push(l4, e);
    lemma_join_push(l5, f);
    lemma_literals_of_summary();
    let t4 = a + "\n---\nSummary:\n  - Total files included: "@ + decimal(files);
    assert(t4 =~= join(l4, end));
    let t5 = t4 + "\n  - Total size: ~"@ + decimal(bytes / 1024);
    assert(t5 + " KB"@ =~= join(l5, end));
    let t6 = t5 + " KB\n  - Max file size: "@ + n;
    assert(t5 + " KB\n  - Max file size: "@ =~= (t5 + " KB"@) + end + y);
    assert(t6 + " KB"@ =~= join(l6, end));
    assert(t6 + " KB\n"@ =~= (t6 + " KB"@) + end);
    assert(l6 =~= seq![a, "---"@, "Summary:"@, d, e, f]);
}

/// A summary is made of these lines.
proof fn lemma_summary_is_its_lines(
    args: ArgsView,
    items: Seq<Seq<char>>,
    files: nat,
    bytes: nat,
)
    ensures
        summary_text(args, items, files, bytes) == join(
            lines_of_summary(args, items, files, bytes),
            seq!['\n'],
        ),
{
    let limit = args.max_file_size_kb as nat;
    let end = seq!['\n'];
    let none = Seq::<char>::empty();
    let first = seq![
        "Repository: https://github.com/"@ + args.repo,
        "---"@,
        "Summary:"@,
        "  - Total files included: "@ + decimal(files),
        "  - Total size: ~"@ + decimal(bytes / 1024) + " KB"@,
        "  - Max file size: "@ + decimal(limit) + " KB"@,
    ];
    let filter = lines_on_filter(args.pattern_type, items);
    let lines = first + filter;
    let head = join(first, end) + end;
    let text = filter_lines(args.pattern_type, items);
    lemma_head_as_lines(args.repo, files, bytes, limit);
    lemma_literals_of_summary();
    assert(summary_text(args, items, files, bytes) == head + text + "\n---\n"@);
    assert(head + text == join(lines, end) + end) by {
        if items.len() == 0 {
            assert(lines =~= first);
            assert(head + text =~= head);
        } else {
            lemma_filter_as_lines(args.pattern_type, items);
            assert(lines =~= first.push(filter[0]).push(filter[1]));
            lemma_join_push(first, filter[0]);
            lemma_join_push(first.push(filter[0]), filter[1]);
            assert(head + text =~= join(first, end) + end + filter[0] + end + filter[1] + end);
        }
    }
    lemma_join_push(lines, none);
    lemma_join_push(lines.push(none), "---"@);
    lemma_join_push(lines.push(none).push("---"@), none);
    assert(lines_of_summary(args, items, files, bytes) =~= lines.push(none).push("---"@).push(
        none,
    ));
    let body = join(lines, end);
    assert((body + end) + (end + "---"@ + end) =~= ((body + end + none) + end + "---"@) + end
        + none);
}

proof fn lemma_no_line_end_in_decimal(n: nat)
    ensures
        !decimal(n).contains('\n'),
{
    lemma_decimal_digits(n);
}

proof fn lemma_no_line_end_in_join(items: Seq<Seq<char>>)
    requires
        forall|i: int| 0 <= i < items.len() ==> !(#[trigger] items[i]).contains('\n'),
    ensures
        !join(items, ", "@).contains('\n'),
    decreases items.len(),
{
    reveal_strlit(", ");
    if items.len() > 1 {
        let front = items.drop_last();
        assert forall|i: int| 0 <= i < front.len() implies !(#[trigger] front[i]).contains(
            '\n',
        ) by {
            assert(front[i] == items[i]);
        }
        lemma_no_line_end_in_join(front);
        assert(items.last() == items[items.len() - 1]);
        lemma_no_line_end_in_sum(join(front, ", "@), ", "@);
        lemma_no_line_end_in_sum(join(front, ", "@) + ", "@, items.last());
    } else if items.len() == 1 {
        assert(join(items, ", "@) == items[0]);
    }
}

proof fn lemma_no_line_end_in_sum(a: Seq<char>, b: Seq<char>)
    requires
        !a.contains('\n'),
        !b.contains('\n'),
    ensures
        !(a + b).contains('\n'),
{
    if (a + b).contains('\n') {
        let k = choose|k: int| 0 <= k < (a + b).len() && (a + b)[k] == '\n';
        if k < a.len() {
            assert(a[k] == '\n');
        } else {
            assert(b[k - a.len()] == '\n');
        }
    }
}

/// Who reads a summary line by line finds the address of the repository, the number of files, their
/// size in whole kilobytes, the size limit that was asked for, and the filter with all its patterns
/// where there are any; then an empty line and a rule. This is so where neither the repository nor
/// a quoted pattern has a line end in it.
pub proof fn law_summary_is_read_by_line(
    args: ArgsView,
    items: Seq<Seq<char>>,
    files: nat,
    bytes: nat,
)
    requires
        !args.repo.contains('\n'),
        forall|i: int| 0 <= i < items.len() ==> !(#[trigger] items[i]).contains('\n'),
    ensures
        ({
            let lines = split(summary_text(args, items, files, bytes), '\n');
            let limit = args.max_file_size_kb as nat;
            let n = lines.len();
            &&& n == if items.len() == 0 {
                9nat
            } else {
                11nat
            }
            &&& lines[0] == "Repository: https://github.com/"@ + args.repo
            &&& lines[1] == "---"@
            &&& lines[2] == "Summary:"@
            &&& lines[3] == "  - Total files included: "@ + decimal(files)
            &&& lines[4] == "  - Total size: ~"@ + decimal(bytes / 1024) + " KB"@
            &&& lines[5] == "  - Max file size: "@ + decimal(limit) + " KB"@
            &&& items.len() > 0 && args.pattern_type is Include ==> lines[6]
                == "  - Filter type: Include"@
            &&& items.len() > 0 && args.pattern_type is Exclude ==> lines[6]
                == "  - Filter type: Exclude"@
            &&& items.len() > 0 ==> lines[7] == "  - Filter patterns: ["@ + join(items, ", "@)
                + "]"@
            &&& lines[n - 3].len() == 0
            &&& lines[n - 2] == "---"@
            &&& lines[n - 1].len() == 0
        }),
{
    let lines = lines_of_summary(args, items, files, bytes);
    let limit = args.max_file_size_kb as nat;
    reveal_strlit("  - Filter type: Include");
    reveal_strlit("  - Filter type: Exclude");
    lemma_summary_is_its_lines(args, items, files, bytes);
    reveal_strlit("Repository: https://github.com/");
    reveal_strlit("---");
    reveal_strlit("Summary:");
    reveal_strlit("  - Total files included: ");
    reveal_strlit("  - Total size: ~");
    reveal_strlit(" KB");
    reveal_strlit("  - Max file size: ");
    reveal_strlit("  - Filter type: ");
    reveal_strlit("Include");
    reveal_strlit("Exclude");
    reveal_strlit("  - Filter patterns: [");
    reveal_strlit("]");
    lemma_no_line_end_in_decimal(files);
    lemma_no_line_end_in_decimal(bytes / 1024);
    lemma_no_line_end_in_decimal(limit);
    lemma_no_line_end_in_join(items);
    lemma_no_line_end_in_sum("Repository: https://github.com/"@, args.repo);
    lemma_no_line_end_in_sum("  - Total files included: "@, decimal(files));
    lemma_no_line_end_in_sum("  - Total size: ~"@, decimal(bytes / 1024));
    lemma_no_line_end_in_sum("  - Total size: ~"@ + decimal(bytes / 1024), " KB"@);
    lemma_no_line_end_in_sum("  - Max file size: "@, decimal(limit));
    lemma_no_line_end_in_sum("  - Max file size: "@ + decimal(limit), " KB"@);
    lemma_no_line_end_in_sum("  - Filter type: "@, "Include"@);
    lemma_no_line_end_in_sum("  - Filter type: "@, "Exclude"@);
    lemma_no_line_end_in_sum("  - Filter patterns: ["@, join(items, ", "@));
    lemma_no_line_end_in_sum("  - Filter patterns: ["@ + join(items, ", "@), "]"@);
    let filter = lines_on_filter(args.pattern_type, items);
    assert forall|i: int| 0 <= i < lines.len() implies !(#[trigger] lines[i]).contains('\n') by {
        if i >= 6 {
            if i < 6 + filter.len() {
                assert(lines[i] == filter[i - 6]);
            } else {
                assert(lines[i] == seq![Seq::<char>::empty(), "---"@, Seq::<char>::empty()][i - 6
                    - filter.len()]);
            }
        }
    }
    law_join_then_split(lines, '\n');
    assert("  - Filter type: "@ + "Include"@ =~= "  - Filter type: Include"@);
    assert("  - Filter type: "@ + "Exclude"@ =~= "  - Filter type: Exclude"@);
    assert(lines.len() == 9 + filter.len());
    if items.len() > 0 {
        assert(lines[6] == filter[0] && lines[7] == filter[1]);
    }
    let rule = seq![Seq::<char>::empty(), "---"@, Seq::<char>::empty()];
    assert(lines[6 + filter.len() as int] == rule[0]);
    assert(lines[7 + filter.len() as int] == rule[1]);
    assert(lines[8 + filter.len() as int] == rule[2]);
}

/// The summary tells the size limit: the number before the ` KB` at the end of its line is read
/// back as the limit that was asked for, and another limit makes another summary.
pub proof fn law_summary_tells_limit(
    args: ArgsView,
    items: Seq<Seq<char>>,
    files: nat,
    bytes: nat,
    other: u64,
)
    ensures
        exists|head: Seq<char>, number: Seq<char>, tail: Seq<char>|
            summary_text(args, items, files, bytes) == #[trigger] (head
                + "\n  - Max file size: "@ + number + " KB\n"@ + tail) && read_number(number)
                == Ok::<u64, NumberError>(args.max_file_size_kb),
        other != args.max_file_size_kb ==> summary_text(args, items, files, bytes) != summary_text(
            ArgsView { max_file_size_kb: other, ..args },
            items,
            files,
            bytes,
        ),
{
    let before = "Repository: https://github.com/"@ + args.repo
        + "\n---\nSummary:\n  - Total files included: "@ + decimal(files) + "\n  - Total size: ~"@
        + decimal(bytes / 1024);
    let head = before + " KB"@;
    let limit = args.max_file_size_kb as nat;
    let number = decimal(limit);
    let tail = filter_lines(args.pattern_type, items) + "\n---\n"@;
    reveal_strlit(" KB\n  - Max file size: ");
    reveal_strlit(" KB");
    reveal_strlit("\n  - Max file size: ");
    assert(" KB\n  - Max file size: "@ =~= " KB"@ + "\n  - Max file size: "@);
    let a = summary_text(args, items, files, bytes);
    assert(a =~= head + "\n  - Max file size: "@ + number + " KB\n"@ + tail);
    law_decimal_round_trip(args.max_file_size_kb);
    let b = summary_text(ArgsView { max_file_size_kb: other, ..args }, items, files, bytes);
    let second = decimal(other as nat);
    law_decimal_round_trip(other);
    assert(b =~= head + "\n  - Max file size: "@ + second + " KB\n"@ + tail);
    if a == b {
        let from = (head + "\n  - Max file size: "@).len() as int;
        assert(number.len() == second.len());
        assert(a.subrange(from, from + number.len()) =~= number);
        assert(b.subrange(from, from + number.len()) =~= second);
    }
}

/// Every pattern is quoted, in order. One of printable ASCII characters without quotes and
/// backslashes stands between quotes as it is, and another as the standard library escapes it.
pub proof fn law_patterns_are_quoted(args: ArgsView, i: int)
    requires
        0 <= i < args.patterns.len(),
    ensures
        quoted_patterns(args).len() == args.patterns.len(),
        ({
            let pattern = args.patterns[i];
            let plain = forall|k: int|
                0 <= k < pattern.len() ==> 32 <= (#[trigger] pattern[k]) as int <= 126
                    && pattern[k] as int != 34 && pattern[k] as int != 92;
            quoted_patterns(args)[i] == if plain {
                "\""@ + pattern + "\""@
            } else {
                debug_text(pattern)
            }
        }),
{
    let pattern = args.patterns[i];
    reveal_strlit("\"");
    assert("\""@ =~= seq!['"']);
    assert(quoted_patterns(args)[i] == quoted(pattern));
}

/// Sizes add up, and one size alone is its own sum.
pub proof fn law_sizes_add_up(a: Seq<u64>, b: Seq<u64>, size: u64)
    ensures
        sum(Seq::empty()) == 0,
        sum(seq![size]) == size,
        sum(a + b) == sum(a) + sum(b),
    decreases b.len(),
{
    assert(seq![size].drop_last() =~= Seq::empty());
    if b.len() == 0 {
        assert(a + b =~= a);
    } else {
        law_sizes_add_up(a, b.drop_last(), size);
        assert((a + b).drop_last() =~= a + b.drop_last());
    }
}

/// The part of a digest on a file shows the path and all of the contents as they are, nothing
/// before the head line and nothing behind the contents. Of a file that cannot be read it tells
/// why.
pub proof fn law_section_shows_the_file(path: Seq<char>, text: Seq<char>, reason: Seq<char>)
    ensures
        file_text(encode_utf8(path), Ok(encode_utf8(text))) == "\n--- "@ + path + " ---\n"@ + text,
        file_text(encode_utf8(path), Err(reason)) == "\n--- "@ + path + " ---\nError reading file: "@
            + reason + "\n"@,
{
    law_text_is_what_bytes_encode(path, encode_utf8(path));
    law_text_is_what_bytes_encode(text, encode_utf8(text));
    reveal_strlit(" ---\n");
    reveal_strlit("Error reading file: ");
    reveal_strlit(" ---\nError reading file: ");
    assert(" ---\nError reading file: "@ =~= " ---\n"@ + "Error reading file: "@);
    assert(file_text(encode_utf8(path), Err(reason)) =~= "\n--- "@ + path
        + " ---\nError reading file: "@ + reason + "\n"@);
}

/// Of bytes that are no UTF-8 the part of a digest shows what the text of the bytes is, in the
/// place of the contents, and so for the path.
pub proof fn law_section_of_any_bytes(path: Seq<u8>, bytes: Seq<u8>)
    ensures
        file_text(path, Ok(bytes)) == "\n--- "@ + text_of(path) + " ---\n"@ + text_of(bytes),
{
}

/// The parts on two lists of files, one after the other, are the part on both; the part on one file
/// is that file's.
pub proof fn law_sections_in_turn(
    paths: Seq<Seq<u8>>,
    contents: Seq<Result<Seq<u8>, Seq<char>>>,
    more_paths: Seq<Seq<u8>>,
    more_contents: Seq<Result<Seq<u8>, Seq<char>>>,
    path: Seq<u8>,
    content: Result<Seq<u8>, Seq<char>>,
)
    requires
        paths.len() == contents.len(),
        more_paths.len() == more_contents.len(),
    ensures
        files_text(seq![path], seq![content]) == file_text(path, content),
        files_text(paths + more_paths, contents + more_contents) == files_text(paths, contents)
            + files_text(more_paths, more_contents),
    decreases more_paths.len(),
{
    assert(seq![path].drop_last() =~= Seq::empty());
    assert(files_text(seq![path].drop_last(), seq![content].drop_last()) =~= Seq::empty());
    assert(files_text(seq![path], seq![content]) =~= file_text(path, content));
    if more_paths.len() == 0 {
        assert(paths + more_paths =~= paths);
        assert(contents + more_contents =~= contents);
        assert(files_text(paths, contents) + files_text(more_paths, more_contents) =~= files_text(
            paths,
            contents,
        ));
    } else {
        let fewer = more_paths.drop_last();
        let less = more_contents.drop_last();
        law_sections_in_turn(paths, contents, fewer, less, path, content);
        assert((paths + more_paths).drop_last() =~= paths + fewer);
        assert((contents + more_contents).drop_last() =~= contents + less);
        assert(files_text(paths + more_paths, contents + more_contents) =~= files_text(
            paths,
            contents,
        ) + files_text(more_paths, more_contents));
    }
}

/// A digest starts with the summary, then draws the tree, and then comes to the contents.
pub proof fn law_opening_in_parts(args: ArgsView, tree: TreeNode, files: nat, bytes: nat)
    ensures
        structure_text(tree) == "Directory Structure:\n"@ + tree.drawing(Seq::empty())
            + "\n---\n"@,
        opening_text(args, tree, files, bytes) == summary_text(
            args,
            quoted_patterns(args),
            files,
            bytes,
        ) + "Directory Structure:\n"@ + tree.drawing(Seq::empty())
            + "\n---\nFile Contents:\n"@,
{
    reveal_strlit("\n---\n");
    reveal_strlit("File Contents:\n");
    reveal_strlit("\n---\nFile Contents:\n");
    assert("\n---\nFile Contents:\n"@ =~= "\n---\n"@ + "File Contents:\n"@);
    assert(opening_text(args, tree, files, bytes) =~= summary_text(
        args,
        quoted_patterns(args),
        files,
        bytes,
    ) + "Directory Structure:\n"@ + tree.drawing(Seq::empty()) + "\n---\nFile Contents:\n"@);
}

} // verus!
