use ffs_cli::bigram::fingerprint_from_metadata;
use ffs_cli::bigram::scan_file;
use ffs_cli::bigram::FileMeta;
use ffs_cli::bigram::GrepBigram;
use ffs_cli::bigram::ScannedFile;
use ffs_cli::commands::grep::prepare;
use ffs_cli::commands::grep::run;
use ffs_cli::commands::grep::Args;
use ffs_cli::commands::grep::WalkedFile;
use ffs_cli::prefilter::Prefilter;

fn args(needle: &str) -> Args {
    Args {
        needle: needle.to_string(),
        limit: 200,
        offset: 0,
        case_sensitive: false,
        ignore_case: false,
        regex: false,
        fixed_strings: false,
        word_regexp: false,
        invert_match: false,
        max_count: 0,
        max_count_per_file: None,
        files_with_matches: false,
        files_without_match: false,
        hidden: false,
        no_ignore: false,
        text: false,
        globs: Vec::new(),
        only_matching: false,
        group: false,
        after_context: 0,
        before_context: 0,
        context: 0,
    }
}

fn meta(secs: u64, content: &[u8]) -> FileMeta {
    FileMeta {
        is_file: true,
        modified: Some(secs),
        len: content.len() as u64,
    }
}

fn scanned(path: &str, content: &[u8]) -> ScannedFile {
    let m = meta(1, content);
    ScannedFile {
        path: path.to_string(),
        scan: scan_file(
            &Some(m),
            &Some(content.to_vec()),
            Some(fingerprint_from_metadata(&m)),
        ),
    }
}

fn walked(path: &str, secs: u64, content: &[u8]) -> WalkedFile {
    WalkedFile {
        path: path.to_string(),
        meta: Some(meta(secs, content)),
        content: Some(content.to_vec()),
    }
}

fn index() -> GrepBigram {
    GrepBigram::build(&vec![
        scanned("/w/a", b"the needle\n"),
        scanned("/w/b", b"nothing\n"),
        scanned("/w/c", b"nothing\n"),
        scanned("/w/bin", b"needle\0\n"),
    ])
}

fn tree() -> Vec<WalkedFile> {
    vec![
        walked("/w/a", 1, b"the needle\n"),
        walked("/w/b", 1, b"nothing\n"),
        walked("/w/c", 2, b"a needle\n"),
        walked("/w/new", 1, b"needle\n"),
        walked("/w/bin", 1, b"needle\0\n"),
    ]
}

fn paths(a: Args, index: Option<GrepBigram>) -> Vec<String> {
    let r = run(a, "/w", &tree(), index).expect("the search starts");
    r.hits.iter().map(|h| h.path.clone()).collect()
}

#[test]
fn an_index_changes_no_answer() {
    let found = paths(args("needle"), Some(index()));
    assert_eq!(found, vec!["/w/a", "/w/c", "/w/new"]);
    assert_eq!(found, paths(args("needle"), None));
    let mut a = args("needle");
    a.text = true;
    let found = paths(a, Some(index()));
    assert_eq!(found, vec!["/w/a", "/w/bin", "/w/c", "/w/new"]);
    let mut a = args("needle");
    a.invert_match = true;
    assert_eq!(paths(a, Some(index())), vec!["/w/b"]);
    let mut a = args("needle");
    a.files_without_match = true;
    assert_eq!(paths(a, Some(index())), vec!["/w/b"]);
}

#[test]
fn only_unchanged_files_without_the_pattern_are_skipped() {
    let filter = Prefilter::new(index(), b"needle");
    assert!(filter.is_active());
    assert!(!filter.skips("/w/a", &Some(meta(1, b"the needle\n"))));
    assert!(filter.skips("/w/b", &Some(meta(1, b"nothing\n"))));
    assert!(!filter.skips("/w/b", &Some(meta(2, b"nothing\n"))));
    assert!(!filter.skips("/w/b", &None));
    assert!(!filter.skips("/w/other", &Some(meta(1, b"nothing\n"))));
    assert!(filter.skips("/w/bin", &Some(meta(1, b"needle\0\n"))));
    assert!(!filter.skips("/w/bin", &Some(meta(2, b"needle\0\n"))));
}

#[test]
fn an_index_is_wanted_for_literals_only() {
    assert!(prepare(args("ab")).expect("starts").wants_index());
    assert!(!prepare(args("a")).expect("starts").wants_index());
    assert!(!prepare(args("a.b")).expect("starts").wants_index());
    let mut a = args("ab");
    a.invert_match = true;
    assert!(prepare(a).expect("starts").wants_index());
    let mut a = args("ab");
    a.invert_match = true;
    a.files_without_match = true;
    assert!(prepare(a).expect("starts").wants_index());
}

#[test]
fn the_index_says_how_many_files_there_are() {
    let r = run(args("needle"), "/w", &tree(), Some(index())).expect("starts");
    assert_eq!(r.total_files_searched, 4);
    let r = run(args("needle"), "/w", &tree(), None).expect("starts");
    assert_eq!(r.total_files_searched, 5);
    let mut a = args("needle");
    a.invert_match = true;
    let r = run(a, "/w", &tree(), Some(index())).expect("starts");
    assert_eq!(r.total_files_searched, 4);
    let mut a = args("needle");
    a.files_without_match = true;
    let r = run(a, "/w", &tree(), Some(index())).expect("starts");
    assert_eq!(r.total_files_searched, 4);
    let r = run(args("needl."), "/w", &tree(), Some(index())).expect("starts");
    assert_eq!(r.total_files_searched, 5);
}

#[test]
fn files_of_unknown_content_are_read() {
    let unread = |path: &str, secs: u64, len: u64| {
        let m = FileMeta { is_file: true, modified: Some(secs), len };
        ScannedFile {
            path: path.to_string(),
            scan: scan_file(&Some(m), &None, Some(fingerprint_from_metadata(&m))),
        }
    };
    let index = || {
        GrepBigram::build(&vec![
            scanned("/w/b", b"nothing\n"),
            unread("/w/long", 1, 7),
        ])
    };
    let filter = Prefilter::new(index(), b"needle");
    assert!(filter.skips("/w/b", &Some(meta(1, b"nothing\n"))));
    assert!(!filter.skips("/w/long", &Some(meta(1, b"needle\n"))));
    let files = vec![
        walked("/w/b", 1, b"nothing\n"),
        walked("/w/long", 1, b"needle\n"),
    ];
    let r = run(args("needle"), "/w", &files, Some(index())).expect("starts");
    assert_eq!(r.hits.len(), 1);
    assert_eq!(r.hits[0].path, "/w/long");
}
