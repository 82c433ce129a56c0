use ffs_cli::commands::glob::render;
use ffs_cli::commands::glob::run;
use ffs_cli::commands::glob::Args;
use ffs_cli::render::Segment;

fn args(limit: usize, offset: usize) -> Args {
    Args {
        pattern: "**/*.rs".to_string(),
        limit,
        offset,
    }
}

fn found() -> Vec<String> {
    ["a.rs", "src/b.rs", "/abs/c.rs"]
        .iter()
        .map(|s| s.to_string())
        .collect()
}

#[test]
fn paths_are_seen_from_the_root() {
    let r = run(args(200, 0), "/w", &found());
    assert_eq!(r.pattern, "**/*.rs");
    assert_eq!(r.matches, vec!["/w/a.rs", "/w/src/b.rs", "/abs/c.rs"]);
    assert!(!r.truncated);
    assert_eq!(r.total_matches_at_least, 3);
}

#[test]
fn pages_of_paths() {
    let r = run(args(2, 1), "/w/", &found());
    assert_eq!(r.matches, vec!["/w/src/b.rs", "/abs/c.rs"]);
    assert!(!r.truncated);
    assert_eq!(r.offset, 1);
    let r = run(args(2, 3), "/w", &found());
    assert!(r.matches.is_empty());
    assert_eq!(r.total_matches_at_least, 3);
    let r = run(args(0, 0), "/w", &vec![]);
    assert!(!r.truncated);
    assert_eq!(args(usize::MAX, 5).scan_limit(), usize::MAX);
    assert_eq!(args(7, 5).scan_limit(), 13);
}

#[test]
fn more_paths_than_the_page_shows() {
    let r = run(args(3, 0), "/w", &found());
    assert!(!r.truncated);
    assert_eq!(r.total_matches_at_least, 3);
    assert_eq!(r.matches.len(), 3);
    let r = run(args(2, 0), "/w", &found());
    assert!(r.truncated);
    assert_eq!(r.total_matches_at_least, 2);
    assert_eq!(r.matches, vec!["/w/a.rs", "/w/src/b.rs"]);
    let r = run(args(1, 1), "/w", &found());
    assert!(r.truncated);
    assert_eq!(r.matches, vec!["/w/src/b.rs"]);
}

#[test]
fn the_text_form_of_paths() {
    let r = run(args(2, 0), "/w", &found()[..2].to_vec());
    let segments = render(&r);
    assert_eq!(segments.len(), 3);
    assert!(matches!(&segments[0], Segment::Plain(t) if t == "/w/a.rs\n"));
    assert!(matches!(&segments[1], Segment::Plain(t) if t == "/w/src/b.rs\n"));
    match &segments[2] {
        Segment::Footer(f) => {
            assert_eq!((f.total, f.offset, f.returned), (2, 0, 2));
            assert!(!f.has_more);
        }
        _ => panic!("a footer"),
    }
    assert!(render(&run(args(2, 0), "/w", &vec![])).is_empty());
}
