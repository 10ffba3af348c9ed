use gitingest::args::{Args, PatternType};
use gitingest::digest::{
    directory_structure, file_section, opening, pattern_list_text, section, summary, summary_with,
    total_size, Digest,
};
use gitingest::git::{clone_command, clone_result, clone_url, failure_message};
use gitingest::path::RawPath;
use gitingest::progress::{cloning_line, found_line, CLONED_LINE, DONE_LINES, PROCESSING_LINE};
use gitingest::tree::{build_tree, path_names, print_tree, TreeNode};

fn strings(args: &[&str]) -> Vec<String> {
    args.iter().map(|s| s.to_string()).collect()
}

fn paths(list: &[&str]) -> Vec<RawPath> {
    list.iter().map(|p| RawPath::from_text(p)).collect()
}

fn file(path: &str, contents: Result<Vec<u8>, String>) -> String {
    file_section(&RawPath::from_text(path), &contents)
}

fn drawing(list: &[&str]) -> String {
    let mut out = String::new();
    print_tree(&build_tree(&paths(list)), "", &mut out);
    out
}

fn args(pattern_type: PatternType, patterns: &[&str]) -> Args {
    Args {
        repo: "a/b".to_string(),
        token: Some("secret".to_string()),
        pattern_type,
        patterns: strings(patterns),
        max_file_size_kb: 50,
    }
}

#[test]
fn tree_is_drawn() {
    assert_eq!(
        drawing(&["src/main.rs", "Cargo.toml", "src/a/b.rs", "src/a/c.rs", "z"]),
        "├── Cargo.toml\n├── src\n│   ├── a\n│   │   ├── b.rs\n│   │   └── c.rs\n│   └── main.rs\n└── z\n"
    );
}

#[test]
fn last_directory_has_blank_indent() {
    assert_eq!(drawing(&["b/c/d"]), "└── b\n    └── c\n        └── d\n");
}

#[test]
fn empty_tree_is_blank() {
    assert_eq!(drawing(&[]), "");
    assert_eq!(drawing(&["", "."]), "");
    assert_eq!(TreeNode::default().entries.len(), 0);
}

#[test]
fn drawing_ignores_order_and_repetition() {
    assert_eq!(drawing(&["a/b", "c", "a/d"]), drawing(&["c", "a/d", "a/b", "c", "a//b"]));
}

#[test]
fn drawing_goes_behind_prefix_and_text() {
    let mut out = "x".to_string();
    print_tree(&build_tree(&paths(&["a"])), "> ", &mut out);
    assert_eq!(out, "x> └── a\n");
}

#[test]
fn prefix_goes_before_each_line() {
    let tree = build_tree(&paths(&["a/b", "c"]));
    let mut out = String::new();
    print_tree(&tree, "| ", &mut out);
    let expected: String = drawing(&["a/b", "c"]).lines().map(|l| format!("| {}\n", l)).collect();
    assert_eq!(out, expected);
}

#[test]
fn different_trees_have_different_drawings() {
    assert_ne!(drawing(&["a/b"]), drawing(&["a", "b"]));
    assert_ne!(drawing(&["a/b", "c"]), drawing(&["a", "b/c"]));
    assert_ne!(drawing(&["a/b"]), drawing(&["a", "└── b"]));
}

#[test]
fn names_are_ordered_by_bytes() {
    assert_eq!(drawing(&["é", "z", "Z", "\u{10000}", "\u{ffff}"]), "├── Z\n├── z\n├── é\n├── \u{ffff}\n└── \u{10000}\n");
}

#[test]
fn tree_leaves_out_what_is_no_name() {
    assert_eq!(path_names(&RawPath::from_text("/./a/../b")), ["a", "b"]);
    assert_eq!(drawing(&["/./a/../b"]), "└── a\n    └── b\n");
}

#[test]
fn names_of_invalid_bytes_have_replacements() {
    let path = RawPath::new(vec![b'a', b'/', 0xfe, b'b']);
    assert_eq!(path_names(&path), ["a", "\u{fffd}b"]);
}

#[test]
fn drawing_has_one_line_for_each_entry() {
    assert_eq!(drawing(&["a/b/c", "a/b/d", "e"]).lines().count(), 5);
}

#[test]
fn inserted_names_are_found_in_order() {
    let mut tree = TreeNode::default();
    tree.insert(&strings(&["x", "b", "c"]), 1);
    tree.insert(&strings(&["a"]), 0);
    tree.insert(&strings(&["b"]), 0);
    let names: Vec<&str> = tree.entries.iter().map(|e| e.name.as_str()).collect();
    assert_eq!(names, ["a", "b"]);
    assert_eq!(tree.entries[1].child.entries[0].name, "c");
}

#[test]
fn summary_without_patterns() {
    assert_eq!(
        summary(&args(PatternType::Exclude, &[]), 3, 5000),
        "Repository: https://github.com/a/b\n---\nSummary:\n  - Total files included: 3\n  - Total size: ~4 KB\n  - Max file size: 50 KB\n\n---\n"
    );
}

#[test]
fn summary_with_patterns() {
    let patterns = ["*.rs", "src/", "", "a\"b\\c\n\u{7f}é'"];
    let a = args(PatternType::Include, &patterns);
    assert_eq!(
        summary(&a, 0, 1023),
        format!(
            "Repository: https://github.com/a/b\n---\nSummary:\n  - Total files included: 0\n  - Total size: ~0 KB\n  - Max file size: 50 KB\n  - Filter type: {:?}\n  - Filter patterns: {:?}\n\n---\n",
            a.pattern_type, a.patterns
        )
    );
    assert!(!summary(&a, 0, 0).contains("secret"));
}

#[test]
fn printable_ascii_is_quoted_as_it_is() {
    for code in 32u8..127 {
        let c = code as char;
        if c != '"' && c != '\\' {
            let text = c.to_string();
            let a = args(PatternType::Exclude, &[text.as_str()]);
            assert!(summary(&a, 0, 0).contains(&format!("  - Filter patterns: [\"{}\"]\n", c)));
        }
    }
}

#[test]
fn summary_takes_quoted_patterns() {
    let text = summary_with(&args(PatternType::Exclude, &[]), &strings(&["<p>", "<q>"]), 1, 1024);
    assert!(text.ends_with(
        "  - Total size: ~1 KB\n  - Max file size: 50 KB\n  - Filter type: Exclude\n  - Filter patterns: [<p>, <q>]\n\n---\n"
    ));
    assert_eq!(pattern_list_text(&[]), "[]");
    assert_eq!(pattern_list_text(&strings(&["x"])), "[x]");
}

#[test]
fn sizes_are_added() {
    assert_eq!(total_size(&[]), Some(0));
    assert_eq!(total_size(&[1, 2, 3]), Some(6));
    assert_eq!(total_size(&[u64::MAX, 0]), Some(u64::MAX));
    assert_eq!(total_size(&[u64::MAX, 1]), None);
}

#[test]
fn structure_part() {
    assert_eq!(
        directory_structure(&paths(&["a"])),
        "Directory Structure:\n└── a\n\n---\n"
    );
}

#[test]
fn opening_part() {
    let a = args(PatternType::Exclude, &[]);
    assert_eq!(
        opening(&a, &paths(&["a"]), 2048),
        format!(
            "{}Directory Structure:\n└── a\n\n---\nFile Contents:\n",
            summary(&a, 1, 2048)
        )
    );
}

#[test]
fn file_part() {
    assert_eq!(
        file("src/x", Ok(b"fn x() {}\n".to_vec())),
        "\n--- src/x ---\nfn x() {}\n"
    );
    assert_eq!(
        file("src/x", Ok(vec![b'a', 0xff])),
        "\n--- src/x ---\na\u{fffd}"
    );
    assert_eq!(
        file("src/x", Err("gone".to_string())),
        "\n--- src/x ---\nError reading file: gone\n"
    );
    assert_eq!(section("p", &Ok("q".to_string())), "\n--- p ---\nq");
}

#[test]
fn whole_digest() {
    let a = args(PatternType::Exclude, &["*.md"]);
    let (mut digest, mut text) =
        Digest::new(&a, paths(&["Cargo.toml", "src/lib.rs", "src/main.rs"]), 3000);
    let contents = [
        ("Cargo.toml", Ok(b"[package]".to_vec())),
        ("src/lib.rs", Err("gone".to_string())),
        ("src/main.rs", Ok(b"fn main() {}\n".to_vec())),
    ];
    for (path, contents) in contents {
        assert_eq!(digest.wanted().unwrap().text(), path);
        text.push_str(&digest.add(&contents));
    }
    assert!(digest.wanted().is_none());
    assert_eq!(
        text,
        "Repository: https://github.com/a/b\n---\nSummary:\n  - Total files included: 3\n  - Total size: ~2 KB\n  - Max file size: 50 KB\n  - Filter type: Exclude\n  - Filter patterns: [\"*.md\"]\n\n---\nDirectory Structure:\n├── Cargo.toml\n└── src\n    ├── lib.rs\n    └── main.rs\n\n---\nFile Contents:\n\n--- Cargo.toml ---\n[package]\n--- src/lib.rs ---\nError reading file: gone\n\n--- src/main.rs ---\nfn main() {}\n"
    );
    let (digest, text) = Digest::new(&a, Vec::new(), 0);
    assert!(digest.wanted().is_none());
    assert_eq!(
        text,
        format!("{}Directory Structure:\n\n---\nFile Contents:\n", summary(&a, 0, 0))
    );
}

#[test]
fn lossy_text_is_that_of_the_standard_library() {
    let cases: [&[u8]; 5] = [b"", b"plain", "é└".as_bytes(), &[0xe2, 0x82, b'x'], &[0xf0, 0x9f]];
    for bytes in cases {
        assert_eq!(RawPath::new(bytes.to_vec()).text(), String::from_utf8_lossy(bytes));
    }
}

#[test]
fn addresses() {
    assert_eq!(clone_url("a/b", &None), "https://github.com/a/b.git");
    assert_eq!(clone_url("a/b", &Some("t".to_string())), "https://t@github.com/a/b.git");
}

#[test]
fn command_fetches_one_revision() {
    let command = clone_command("a/b", &None, &RawPath::from_text("/tmp/x"));
    assert_eq!(command.program, "git");
    assert_eq!(command.variable, ("GIT_TERMINAL_PROMPT".to_string(), "0".to_string()));
    let expected: Vec<Vec<u8>> =
        ["clone", "--depth", "1", "--no-tags", "https://github.com/a/b.git", "/tmp/x"]
            .iter()
            .map(|s| s.as_bytes().to_vec())
            .collect();
    assert_eq!(command.args, expected);
}

#[test]
fn failed_command_is_reported() {
    assert_eq!(clone_result(true, b"noise"), Ok(()));
    assert_eq!(
        clone_result(false, b"fatal: no\xff"),
        Err("Failed to clone repository: fatal: no\u{fffd}".to_string())
    );
    assert_eq!(failure_message("x"), "Failed to clone repository: x");
}

#[test]
fn progress_is_told() {
    assert_eq!(cloning_line("user/repo"), "Cloning user/repo...\n");
    assert_eq!(cloning_line(""), "Cloning ...\n");
    assert_eq!(CLONED_LINE, "Clone successful.\n");
    assert_eq!(PROCESSING_LINE, "Processing repository...\n");
    for files in [0, 1, 9, 10, 1234, usize::MAX] {
        assert_eq!(found_line(files), format!("Found {} files to include.\n", files));
    }
    assert_eq!(DONE_LINES, "\nDone. Digest printed to standard output.\n");
}
