use ffs_cli::commands::grep::GrepError;
use ffs_cli::globs::build_glob_filter;
use ffs_cli::globs::lets_through;
use ffs_cli::paths::components_of;
use ffs_cli::paths::display_path;
use ffs_cli::paths::file_name;
use ffs_cli::paths::join;
use ffs_cli::paths::strip_base;

fn strings(all: &[&str]) -> Vec<String> {
    all.iter().map(|s| s.to_string()).collect()
}

#[test]
fn parts_of_paths() {
    assert_eq!(components_of("a/b//c/"), vec!["a", "b", "c"]);
    assert_eq!(components_of("/a/./b"), vec!["/", "a", "b"]);
    assert_eq!(components_of("./a"), vec![".", "a"]);
    assert_eq!(components_of("a/../b"), vec!["a", "..", "b"]);
    assert!(components_of("").is_empty());
    assert_eq!(file_name("/a/b.rs"), Some("b.rs".to_string()));
    assert_eq!(file_name("/a/b.rs/"), Some("b.rs".to_string()));
    assert_eq!(file_name("/a/.."), None);
    assert_eq!(file_name("/"), None);
}

#[test]
fn paths_below_a_root() {
    assert_eq!(strip_base("/w/src/a.rs", "/w"), Some("src/a.rs".to_string()));
    assert_eq!(strip_base("/w/src/a.rs", "/w/"), Some("src/a.rs".to_string()));
    assert_eq!(strip_base("/workspace/a.rs", "/w"), None);
    assert_eq!(strip_base("/w", "/w"), Some("".to_string()));
    assert_eq!(display_path("/w", "/w/a.rs"), "a.rs");
    assert_eq!(display_path("/w", "/x/a.rs"), "/x/a.rs");
    assert_eq!(join("/w", "a.rs"), "/w/a.rs");
    assert_eq!(join("/w/", "a.rs"), "/w/a.rs");
    assert_eq!(join("/w", "/a.rs"), "/a.rs");
    assert_eq!(join("", "a.rs"), "a.rs");
}

#[test]
fn files_by_pattern() {
    let filter = build_glob_filter(&strings(&["*.rs", "!b.rs"]))
        .expect("valid")
        .expect("some");
    assert!(filter.matches("/w", "/w/src/a.rs"));
    assert!(!filter.matches("/w", "/w/src/b.rs"));
    assert!(!filter.matches("/w", "/w/src/a.txt"));
    let filter = build_glob_filter(&strings(&["!*.lock"]))
        .expect("valid")
        .expect("some");
    assert!(filter.matches("/w", "/w/a.rs"));
    assert!(!filter.matches("/w", "/w/Cargo.lock"));
    assert!(build_glob_filter(&vec![]).expect("valid").is_none());
    assert!(matches!(
        build_glob_filter(&strings(&["a["])),
        Err(GrepError::InvalidGlob { pattern, .. }) if pattern == "a["
    ));
}

#[test]
fn globs_that_exclude_win() {
    assert!(lets_through(false, false, false));
    assert!(lets_through(false, true, true));
    assert!(!lets_through(false, true, false));
    assert!(!lets_through(true, true, true));
}
