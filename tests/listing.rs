use dirr::exclude::{compile_patterns, glob_to_regex, is_excluded, ExclusionPattern};
use dirr::metadata::{format_metadata_at, format_missing_metadata, ModifiedTime};
use dirr::render::{join_components, render_line};
use dirr::size::format_file_size;
use dirr::time::{format_elapsed, format_time_at};
use dirr::walk::{DirEntry, TreeWalker, WalkError};

fn entry(name: &str, is_dir: bool) -> DirEntry {
    DirEntry { name: name.to_string(), is_dir }
}

fn patterns(list: &[&str]) -> Vec<ExclusionPattern> {
    let raw: Vec<String> = list.iter().map(|s| s.to_string()).collect();
    match compile_patterns(&raw) {
        Ok(p) => p,
        Err(e) => panic!("pattern refused: {}", e.pattern),
    }
}

/// Drives a walk over an in-memory tree given as (directory, listing) pairs;
/// returns the recorded paths and the directories that were asked for.
fn run_walk(
    root: &str,
    pats: Vec<ExclusionPattern>,
    tree: &[(&str, Vec<(&str, bool)>)],
) -> (Vec<String>, Vec<String>) {
    let mut w = TreeWalker::new(root, pats);
    let mut asked = Vec::new();
    while let Some(dir) = w.pending_dir() {
        let key = join_components(&dir);
        asked.push(key.clone());
        let listing = tree
            .iter()
            .find(|(d, _)| *d == key)
            .map(|(_, l)| l.iter().map(|(n, d)| entry(n, *d)).collect())
            .unwrap_or_default();
        w.feed(listing);
    }
    assert!(w.is_done());
    let paths = w.results().iter().map(|p| join_components(p)).collect();
    (paths, asked)
}

fn scenario_tree() -> Vec<(&'static str, Vec<(&'static str, bool)>)> {
    vec![
        ("", vec![("a", true), ("c", true)]),
        ("a", vec![("b.txt", false)]),
        ("c", vec![("tmp", true)]),
        ("c/tmp", vec![("d.txt", false)]),
    ]
}

#[test]
fn size_bytes() {
    assert_eq!(format_file_size(0), "0 B");
    assert_eq!(format_file_size(1023), "1023 B");
}

#[test]
fn size_scaled_units() {
    assert_eq!(format_file_size(1024), "1.00 KB");
    assert_eq!(format_file_size(1_048_576), "1.00 MB");
    assert_eq!(format_file_size(1_500_000_000), "1.40 GB");
    assert_eq!(format_file_size(1536), "1.50 KB");
    assert_eq!(format_file_size(1_048_575), "1024.00 KB");
    assert_eq!(format_file_size(u64::MAX), "17179869184.00 GB");
}

#[test]
fn size_rounding_matches_float_formatting() {
    for n in [1152u64, 1153, 1280, 3200, 5_000, 123_456, 1_000_000, 7_340_032, 999_999_999] {
        let expected = if n < 1024 * 1024 {
            format!("{:.2} KB", n as f64 / 1024.0)
        } else if n < 1024 * 1024 * 1024 {
            format!("{:.2} MB", n as f64 / (1024.0 * 1024.0))
        } else {
            format!("{:.2} GB", n as f64 / (1024.0 * 1024.0 * 1024.0))
        };
        assert_eq!(format_file_size(n), expected, "size {}", n);
    }
}

#[test]
fn relative_time_buckets() {
    assert_eq!(format_elapsed(30), "just now");
    assert_eq!(format_elapsed(90), "1 minutes ago");
    assert_eq!(format_elapsed(9000), "2 hours ago");
    assert_eq!(format_elapsed(3 * 86400), "3 days ago");
    assert_eq!(format_elapsed(59), "just now");
    assert_eq!(format_elapsed(60), "1 minutes ago");
    assert_eq!(format_elapsed(3599), "59 minutes ago");
    assert_eq!(format_elapsed(3600), "1 hours ago");
    assert_eq!(format_elapsed(86399), "23 hours ago");
    assert_eq!(format_elapsed(-5), "just now");
}

#[test]
fn relative_time_against_now() {
    let now: i64 = 1_700_000_000;
    assert_eq!(format_time_at((now - 30) as u64, now), "just now");
    assert_eq!(format_time_at((now - 90) as u64, now), "1 minutes ago");
    assert_eq!(format_time_at((now - 9000) as u64, now), "2 hours ago");
    assert_eq!(format_time_at((now - 3 * 86400) as u64, now), "3 days ago");
    assert_eq!(format_time_at((now + 500) as u64, now), "just now");
}

#[test]
fn relative_time_unrepresentable() {
    assert_eq!(format_time_at(u64::MAX, 0), "an invalid time");
    assert_eq!(format_time_at(i64::MAX as u64, 0), "an invalid time");
}

#[test]
fn relative_time_at_the_edge_of_chrono_range() {
    let last: u64 = 8_210_266_876_799;
    assert_eq!(format_time_at(last, last as i64 + 90), "1 minutes ago");
    assert_eq!(format_time_at(last + 1, last as i64 + 90), "an invalid time");
    assert_eq!(format_time_at(0, 3 * 86400), "3 days ago");
}

#[test]
fn metadata_annotations() {
    assert_eq!(
        format_metadata_at(2048, ModifiedTime::SinceEpoch(1000), 1090),
        " (2.00 KB modified 1 minutes ago)"
    );
    assert_eq!(format_metadata_at(5, ModifiedTime::Unavailable, 0), " (Unable to fetch metadata)");
    assert_eq!(
        format_metadata_at(5, ModifiedTime::BeforeEpoch, 0),
        " (5 B modified a time before UNIX_EPOCH)"
    );
    assert_eq!(format_missing_metadata(), " (Error fetching metadata)");
}

#[test]
fn glob_stars_become_wildcards() {
    assert_eq!(glob_to_regex("*tmp*"), ".*tmp.*");
    assert_eq!(glob_to_regex("tmp"), "tmp");
    assert_eq!(glob_to_regex(""), "");
    assert_eq!(glob_to_regex("a*b*"), "a.*b.*");
}

#[test]
fn glob_and_substring_exclusion() {
    assert!(is_excluded("./build_tmp_1", &patterns(&["*tmp*"])));
    assert!(is_excluded("./build_tmp_1", &patterns(&["tmp"])));
    assert!(is_excluded("./x/build_tmp_1/y.txt", &patterns(&["tmp"])));
    assert!(!is_excluded("./src/main.rs", &patterns(&["tmp"])));
    assert!(!is_excluded("./src/main.rs", &patterns(&[])));
    assert!(!is_excluded("./a/tm/p", &patterns(&["tmp"])));
}

#[test]
fn invalid_pattern_is_reported() {
    let raw = vec!["ok".to_string(), "(".to_string(), "[".to_string()];
    match compile_patterns(&raw) {
        Ok(_) => panic!("expected an error"),
        Err(e) => assert_eq!(e.pattern, "("),
    }
}

#[test]
fn scenario_excluded_subtree() {
    let (paths, asked) = run_walk(".", patterns(&["tmp"]), &scenario_tree());
    assert_eq!(paths, vec!["a", "a/b.txt", "c"]);
    assert!(!asked.contains(&"c/tmp".to_string()));
}

#[test]
fn walk_without_patterns_is_preorder() {
    let (paths, _) = run_walk(".", patterns(&[]), &scenario_tree());
    assert_eq!(paths, vec!["a", "a/b.txt", "c", "c/tmp", "c/tmp/d.txt"]);
}

#[test]
fn walk_twice_gives_same_paths() {
    let first = run_walk(".", patterns(&["b"]), &scenario_tree()).0;
    let second = run_walk(".", patterns(&["b"]), &scenario_tree()).0;
    assert_eq!(first, second);
    assert_eq!(first, vec!["a", "c", "c/tmp", "c/tmp/d.txt"]);
}

#[test]
fn walk_empty_root() {
    let (paths, asked) = run_walk(".", patterns(&[]), &[]);
    assert!(paths.is_empty());
    assert_eq!(asked, vec![""]);
}

#[test]
fn root_component_matching_excludes_everything() {
    let (paths, _) = run_walk("./proj", patterns(&["proj"]), &scenario_tree());
    assert!(paths.is_empty());
}

#[test]
fn lines_are_indented_by_depth() {
    let rel = vec!["a".to_string(), "b.txt".to_string()];
    assert_eq!(render_line(&rel, ""), "|   |--a/b.txt");
    assert_eq!(render_line(&vec!["a".to_string()], " (x)"), "|--a (x)");
    let deep: Vec<String> = ["a", "b", "c", "d"].iter().map(|s| s.to_string()).collect();
    let line = render_line(&deep, "");
    assert_eq!(line.find("|--"), Some(12));
}

#[test]
fn unreadable_root_is_an_error() {
    let mut w = TreeWalker::new(".", patterns(&[]));
    assert!(matches!(w.listing_failed(), Err(WalkError::RootUnreadable)));
    assert!(w.is_done());
    assert!(w.results().is_empty());
}

#[test]
fn unreadable_subdirectory_is_skipped() {
    let mut w = TreeWalker::new(".", patterns(&[]));
    w.feed(vec![entry("a", true), entry("z", false)]);
    assert!(w.listing_failed().is_ok());
    assert!(w.is_done());
    let paths: Vec<String> = w.results().iter().map(|p| join_components(p)).collect();
    assert_eq!(paths, vec!["a", "z"]);
}
