use gitingest::filter::{
    path_matches_patterns, should_enter, should_keep, text_matches_patterns,
};
use gitingest::args::{Args, PatternType};
use gitingest::path::RawPath;
use gitingest::sort::sort_paths;
use gitingest::tempdir::TempDir;
use gitingest::walk::{EntryKind, Walk};
use std::path::{Path, PathBuf};

fn strings(args: &[&str]) -> Vec<String> {
    args.iter().map(|s| s.to_string()).collect()
}

fn matches(path: &str, patterns: &[&str]) -> bool {
    path_matches_patterns(&RawPath::from_text(path), &strings(patterns))
}

fn args(pattern_type: PatternType, patterns: &[&str], max_file_size_kb: u64) -> Args {
    Args {
        repo: "a/b".to_string(),
        token: None,
        pattern_type,
        patterns: strings(patterns),
        max_file_size_kb,
    }
}

const PATHS: [&str; 22] = [
    "", ".", "..", "/", "a", "a/b", "a//b", "./a", "a/./b", "a/", "/a", "//a", "../a", "a/../b",
    "a.b", "a-b/c", "a/b/c", ".git/config", "...", "a/..", "./..", "é/ü",
];

#[test]
fn components_are_those_of_the_standard_library() {
    for path in PATHS {
        let expected: Vec<Vec<u8>> = Path::new(path)
            .components()
            .map(|c| c.as_os_str().to_str().unwrap().as_bytes().to_vec())
            .collect();
        assert_eq!(RawPath::from_text(path).components(), expected, "{}", path);
    }
}

#[test]
fn joining_is_that_of_the_standard_library() {
    for base in PATHS {
        for path in PATHS {
            let expected = Path::new(base).join(path);
            let whole = RawPath::from_text(base).join(path.as_bytes());
            assert_eq!(whole.as_bytes(), expected.to_str().unwrap().as_bytes());
        }
    }
}

#[test]
fn sorting_is_that_of_the_standard_library() {
    let mut expected: Vec<PathBuf> = PATHS.iter().map(PathBuf::from).collect();
    expected.sort();
    let paths: Vec<RawPath> = PATHS.iter().map(|p| RawPath::from_text(p)).collect();
    let sorted = sort_paths(&paths);
    let texts: Vec<String> = sorted.iter().map(|p| p.text()).collect();
    let expected: Vec<String> = expected.iter().map(|p| p.to_str().unwrap().to_string()).collect();
    assert_eq!(texts, expected);
}

#[test]
fn sorting_goes_by_components_not_by_bytes() {
    let paths: Vec<RawPath> =
        ["a-b/c", "a/b", "a", "B"].iter().map(|p| RawPath::from_text(p)).collect();
    let texts: Vec<String> = sort_paths(&paths).iter().map(|p| p.text()).collect();
    assert_eq!(texts, ["B", "a", "a/b", "a-b/c"]);
}

#[test]
fn sorting_keeps_equal_paths_in_their_order() {
    let paths: Vec<RawPath> =
        ["b", "a//b", "a/b", "a/b/"].iter().map(|p| RawPath::from_text(p)).collect();
    let texts: Vec<String> = sort_paths(&paths).iter().map(|p| p.text()).collect();
    assert_eq!(texts, ["a//b", "a/b", "a/b/", "b"]);
}

#[test]
fn text_of_invalid_bytes_has_replacements() {
    let bytes = vec![b'a', 0xff, b'/', b'b'];
    assert_eq!(RawPath::new(bytes).text(), "a\u{fffd}/b");
}

#[test]
fn suffix_pattern() {
    assert!(matches("src/main.rs", &["*.rs"]));
    assert!(matches(".rs", &["*.rs"]));
    assert!(!matches("src/main.rsx", &["*.rs"]));
    assert!(!matches("rs", &["*.rs"]));
    assert!(matches("a.b/", &["*.b/"]));
    assert!(matches("a.", &["*."]));
    assert!(!matches("main.rs", &["*rs"]));
}

#[test]
fn prefix_pattern() {
    assert!(matches("src/main.rs", &["src/"]));
    assert!(matches("src/a/b", &["src/a/"]));
    assert!(!matches("src", &["src/"]));
    assert!(!matches("lib/src/main.rs", &["src/"]));
}

#[test]
fn exact_pattern() {
    assert!(matches("src/main.rs", &["src/main.rs"]));
    assert!(!matches("src/main.rs.bak", &["src/main.rs"]));
    assert!(!matches("a/src/main.rs", &["src/main.rs"]));
}

#[test]
fn component_pattern() {
    assert!(matches("target", &["target"]));
    assert!(matches("a/target/b", &["target"]));
    assert!(matches("a/Cargo.lock", &["Cargo.lock"]));
    assert!(!matches("a/targets/b", &["target"]));
    assert!(matches("../a", &[".."]));
    assert!(!matches("a/./b", &["."]));
}

#[test]
fn component_pattern_compares_bytes() {
    let path = RawPath::new(vec![b'a', 0xff]);
    assert!(!path_matches_patterns(&path, &strings(&["a\u{fffd}"])));
    let path = RawPath::new(vec![b'a', b'.', 0xff]);
    assert!(path_matches_patterns(&path, &strings(&["*.\u{fffd}"])));
}

#[test]
fn ends_of_a_path_match_where_it_is_no_utf8() {
    let path = RawPath::new(b"src/\xe2\x82.rs".to_vec());
    assert!(path_matches_patterns(&path, &strings(&["src/"])));
    assert!(path_matches_patterns(&path, &strings(&["*.rs"])));
    assert!(path_matches_patterns(&path, &strings(&["src"])));
    assert!(!path_matches_patterns(&path, &strings(&["*.r", "rc/", "", "sr"])));
}

#[test]
fn empty_patterns_match_nothing() {
    assert!(!matches("a", &[]));
    assert!(!matches("a", &["", ""]));
    assert!(matches("a", &["", "a"]));
}

#[test]
fn text_and_components_are_looked_at_apart() {
    let parts = vec![b"x".to_vec()];
    assert!(text_matches_patterns("y", &parts, &strings(&["x"])));
    assert!(!text_matches_patterns("y", &parts, &strings(&["y"])));
    assert!(text_matches_patterns("y.z", &parts, &strings(&["*.z"])));
}

#[test]
fn size_limit_is_inclusive() {
    let a = args(PatternType::Exclude, &[], 1);
    let path = RawPath::from_text("f");
    assert!(should_keep(&path, 1024, &a));
    assert!(!should_keep(&path, 1025, &a));
}

#[test]
fn size_limit_may_be_any_number() {
    let path = RawPath::from_text("a");
    for limit in [u64::MAX / 1024, u64::MAX / 1024 + 1, 1 << 54, u64::MAX] {
        let a = args(PatternType::Exclude, &[], limit);
        assert!(should_keep(&path, 1, &a));
        let mut walk = Walk::new();
        assert!(!walk.visit(b"a", EntryKind::File(1), &a));
        assert_eq!(walk.into_files(), [RawPath::from_text("a")]);
    }
    assert!(should_keep(&path, u64::MAX, &args(PatternType::Exclude, &[], 1 << 54)));
    assert!(!should_keep(&path, u64::MAX, &args(PatternType::Exclude, &[], (1 << 54) - 1)));
    assert!(!should_keep(&path, 1, &args(PatternType::Exclude, &[], 0)));
    assert!(should_keep(&path, 0, &args(PatternType::Exclude, &[], 0)));
}

#[test]
fn filters_are_complementary() {
    for path in ["src/main.rs", "README.md", "target/x"] {
        let path = RawPath::from_text(path);
        let patterns = ["*.rs", "target"];
        assert_ne!(
            should_keep(&path, 1, &args(PatternType::Include, &patterns, 1)),
            should_keep(&path, 1, &args(PatternType::Exclude, &patterns, 1))
        );
    }
    let path = RawPath::from_text("x");
    assert!(!should_keep(&path, 1, &args(PatternType::Include, &[], 1)));
    assert!(should_keep(&path, 1, &args(PatternType::Exclude, &[], 1)));
}

#[test]
fn directories_that_are_entered() {
    let a = args(PatternType::Exclude, &["target", "dist/", "*.d"], 1);
    assert!(!should_enter(&RawPath::from_text(".git"), &a));
    assert!(!should_enter(&RawPath::from_text(".git/hooks"), &a));
    assert!(should_enter(&RawPath::from_text("a/.git"), &a));
    assert!(should_enter(&RawPath::from_text(".github"), &a));
    assert!(!should_enter(&RawPath::from_text("a/target"), &a));
    assert!(should_enter(&RawPath::from_text("dist"), &a));
    assert!(!should_enter(&RawPath::from_text("conf.d"), &a));
    let a = args(PatternType::Include, &["target"], 1);
    assert!(should_enter(&RawPath::from_text("target"), &a));
    assert!(should_enter(&RawPath::from_text("src"), &a));
}

#[test]
fn walk_collects_files() {
    let a = args(PatternType::Exclude, &["*.md", "target"], 1);
    let mut walk = Walk::new();
    assert!(walk.is_open());
    assert!(!walk.visit(b".git", EntryKind::Dir, &a));
    assert!(!walk.visit(b"README.md", EntryKind::File(10), &a));
    assert!(!walk.visit(b"big", EntryKind::File(2000), &a));
    assert!(!walk.visit(b"socket", EntryKind::Other, &a));
    assert!(walk.visit(b"src", EntryKind::Dir, &a));
    assert!(!walk.visit(b"main.rs", EntryKind::File(5), &a));
    assert!(!walk.visit(b"target", EntryKind::Dir, &a));
    assert!(walk.visit(b"deep", EntryKind::Dir, &a));
    assert!(!walk.visit(b"x", EntryKind::File(0), &a));
    walk.leave();
    walk.leave();
    assert!(!walk.visit(b".gitignore", EntryKind::File(1), &a));
    walk.leave();
    assert!(!walk.is_open());
    let texts: Vec<String> = walk.into_files().iter().map(|p| p.text()).collect();
    assert_eq!(texts, ["src/main.rs", "src/deep/x", ".gitignore"]);
}

#[test]
fn temporary_directory_has_the_time_in_its_name() {
    let dir = TempDir::new(&RawPath::from_text("/tmp"), 1754719465123, &[]).unwrap();
    assert_eq!(dir.path().as_bytes(), b"/tmp/gitingest-1754719465123");
    let other = TempDir::new(&RawPath::from_text("/tmp/"), 1754719465124, &[]).unwrap();
    assert_eq!(other.path().as_bytes(), b"/tmp/gitingest-1754719465124");
    assert_ne!(dir.path().as_bytes(), other.path().as_bytes());
}

#[test]
fn temporary_directory_is_none_that_is_taken() {
    let base = RawPath::from_text("/tmp");
    let mut taken: Vec<RawPath> = Vec::new();
    for time in [9, 10, 11] {
        let dir = TempDir::new(&base, 9, &taken).unwrap();
        assert_eq!(dir.path().text(), format!("/tmp/gitingest-{}", time));
        taken.push(dir.path().duplicate());
    }
    let dir = TempDir::new(&base, 8, &taken).unwrap();
    assert_eq!(dir.path().text(), "/tmp/gitingest-8");
}

#[test]
fn runs_hold_different_directories() {
    let base = RawPath::from_text("/tmp");
    let mut live = vec![b"/tmp/gitingest-8".to_vec()];
    let mut held: Vec<Vec<u8>> = Vec::new();
    for millis in [7, 7, 7, 9, 8] {
        let mut refused = Vec::new();
        let path = loop {
            let dir = TempDir::new(&base, millis, &refused).unwrap();
            if !live.contains(&dir.path().as_bytes().to_vec()) {
                break dir.path().as_bytes().to_vec();
            }
            refused.push(dir.path().duplicate());
        };
        assert!(!held.contains(&path));
        live.push(path.clone());
        held.push(path);
        if held.len() == 3 {
            let gone = held.remove(0);
            live.retain(|path| *path != gone);
        }
    }
    assert_eq!(held, [b"/tmp/gitingest-11".to_vec(), b"/tmp/gitingest-9".to_vec()]);
}

#[test]
fn temporary_directory_may_be_missing_at_the_end_of_time() {
    let base = RawPath::from_text("/tmp");
    let last = TempDir::new(&base, u128::MAX, &[]).unwrap();
    let taken = [last.path().duplicate()];
    assert!(TempDir::new(&base, u128::MAX, &taken).is_none());
}
