use std::collections::HashSet;

use ffs_cli::bigram::extract_bigrams;
use ffs_cli::bigram::extract_file_bigrams;
use ffs_cli::bigram::fingerprint_from_metadata;
use ffs_cli::bigram::is_binary;
use ffs_cli::bigram::scan_file;
use ffs_cli::bigram::wants_content;
use ffs_cli::bigram::FileMeta;
use ffs_cli::bigram::GrepBigram;
use ffs_cli::bigram::Scan;
use ffs_cli::bigram::ScannedFile;

fn meta(secs: u64, content: &[u8]) -> FileMeta {
    FileMeta {
        is_file: true,
        modified: Some(secs),
        len: content.len() as u64,
    }
}

fn scanned(path: &str, content: &[u8]) -> ScannedFile {
    let m = meta(1000, content);
    let scan = scan_file(
        &Some(m),
        &Some(content.to_vec()),
        Some(fingerprint_from_metadata(&m)),
    );
    ScannedFile {
        path: path.to_string(),
        scan,
    }
}

fn names(hits: &[&String]) -> Vec<String> {
    hits.iter().map(|s| s.to_string()).collect()
}

#[test]
fn build_and_filter_keeps_files_with_pattern() {
    let idx = GrepBigram::build(&vec![
        scanned("a.rs", b"fn alpha() {}\n"),
        scanned("b.rs", b"fn beta() {}\n"),
        scanned("c.rs", b"fn gamma() {}\n"),
    ]);
    let hits = idx.filter(b"alpha").expect("had bigrams");
    let hits = names(&hits);
    assert!(hits.contains(&"a.rs".to_string()));
    assert!(!hits.contains(&"b.rs".to_string()));
    assert!(!hits.contains(&"c.rs".to_string()));
}

#[test]
fn filter_returns_none_for_too_short_pattern() {
    let idx = GrepBigram::build(&vec![scanned("a.rs", b"x")]);
    assert!(idx.filter(b"a").is_none());
}

#[test]
fn filter_returns_empty_when_bigram_never_seen() {
    let idx = GrepBigram::build(&vec![scanned("a.rs", b"abcdef\n")]);
    let hits = idx.filter(b"qz").expect("had printable bigrams");
    assert!(hits.is_empty());
}

#[test]
fn filter_is_case_insensitive_at_extraction() {
    let idx = GrepBigram::build(&vec![scanned("a.rs", b"fn ALPHA() {}\n")]);
    let hits = idx.filter(b"alpha").expect("had bigrams");
    assert!(names(&hits).contains(&"a.rs".to_string()));
}

#[test]
fn build_skips_binary_files_silently() {
    let bin = vec![0u8; 1024];
    let idx = GrepBigram::build(&vec![
        scanned("bin.dat", &bin),
        scanned("ok.rs", b"hello world\n"),
    ]);
    let hits = idx.filter(b"hello").expect("had bigrams");
    let hits = names(&hits);
    assert!(hits.contains(&"ok.rs".to_string()));
    assert!(!hits.contains(&"bin.dat".to_string()));
}

#[test]
fn is_current_false_for_file_added_after_index() {
    let idx = GrepBigram::build(&vec![scanned("a.rs", b"fn alpha() {}\n")]);
    let added = meta(1000, b"fn zeta() {}\n");
    assert!(!idx.is_current("zeta.rs", &Some(added)));
}

#[test]
fn is_current_false_after_in_place_modify() {
    let idx = GrepBigram::build(&vec![scanned("a.rs", b"fn alpha() {}\n")]);
    assert!(idx.is_current("a.rs", &Some(meta(1000, b"fn alpha() {}\n"))));
    assert!(!idx.is_current("a.rs", &Some(meta(1000, b"fn zeta_also_here() {}\n"))));
    assert!(!idx.is_current("a.rs", &Some(meta(1001, b"fn alpha() {}\n"))));
}

#[test]
fn is_current_true_for_unchanged_file() {
    let idx = GrepBigram::build(&vec![scanned("a.rs", b"fn alpha() {}\n")]);
    assert!(idx.is_current("a.rs", &Some(meta(1000, b"fn alpha() {}\n"))));
}

#[test]
fn selectivity_skips_filter_when_most_files_match() {
    let mut files = Vec::new();
    for i in 0..120 {
        files.push(scanned(&format!("f{i}.rs"), b"fn alpha_ab() {}\n"));
    }
    let idx = GrepBigram::build(&files);
    let result = idx.filter(b"ab");
    assert!(result.is_none(), "should skip filter when >80% match");
}

#[test]
fn selectivity_keeps_filter_when_few_files_match() {
    let mut files = Vec::new();
    for i in 0..100 {
        let content: &[u8] = if i < 10 {
            b"fn has_zz_zz() {}\n"
        } else {
            b"fn normal() {}\n"
        };
        files.push(scanned(&format!("f{i}.rs"), content));
    }
    let idx = GrepBigram::build(&files);
    let result = idx.filter(b"zz");
    let candidates = result.expect("should return candidates");
    assert!(
        candidates.len() <= 10,
        "should filter to ~10 candidates, got {}",
        candidates.len()
    );
    assert_eq!(candidates.len(), 10);
}

#[test]
fn pairs_of_a_text() {
    let set = extract_bigrams(b"aB\nc~ ");
    let expected: HashSet<u16> = [
        (b'a' as u16) << 8 | b'b' as u16,
        (b'c' as u16) << 8 | b'~' as u16,
        (b'~' as u16) << 8 | b' ' as u16,
    ]
    .into_iter()
    .collect();
    assert_eq!(set, expected);
    assert!(extract_bigrams(b"x").is_empty());
    assert!(extract_bigrams(b"").is_empty());
}

#[test]
fn a_zero_byte_far_in_does_not_make_a_file_binary() {
    let mut content = vec![b'x'; 8192];
    content.push(0);
    assert!(!is_binary(&content));
    content[8191] = 0;
    assert!(is_binary(&content));
    assert!(!is_binary(b""));
}

#[test]
fn what_is_known_of_a_file() {
    let big = FileMeta {
        is_file: true,
        modified: Some(7),
        len: 4 * 1024 * 1024 + 1,
    };
    assert!(extract_file_bigrams(&Some(big), &Some(vec![b'x'; 16]), Some((7, 16))).is_none());
    let folder = FileMeta {
        is_file: false,
        modified: Some(7),
        len: 16,
    };
    assert!(extract_file_bigrams(&Some(folder), &Some(vec![b'x'; 16]), Some((7, 16))).is_none());
    let small = meta(7, b"abc");
    assert!(extract_file_bigrams(&Some(small), &None, Some((7, 3))).is_none());
    assert!(extract_file_bigrams(&Some(small), &Some(b"abc".to_vec()), None).is_none());
    assert!(extract_file_bigrams(&None, &Some(b"abc".to_vec()), Some((7, 3))).is_none());
    let binary = b"a\0b".to_vec();
    let m = meta(7, &binary);
    assert!(extract_file_bigrams(&Some(m), &Some(binary.clone()), Some((7, 3))).is_none());
    assert!(matches!(
        scan_file(&Some(m), &Some(binary), Some((7, 3))),
        Scan::Binary { fingerprint: (7, 3) }
    ));
    assert!(matches!(
        scan_file(&Some(big), &None, Some((7, 9))),
        Scan::Unknown { fingerprint: (7, 9) }
    ));
    assert!(matches!(
        scan_file(&Some(small), &None, None),
        Scan::Unknown { fingerprint: (0, 0) }
    ));
    match scan_file(&Some(meta(7, b"")), &Some(Vec::new()), Some((7, 0))) {
        Scan::Known { pairs, fingerprint } => {
            assert!(pairs.is_empty());
            assert_eq!(fingerprint, (7, 0));
        }
        other => panic!("{:?}", other),
    }
    assert!(wants_content(&small));
    assert!(!wants_content(&big));
    assert!(!wants_content(&folder));
}

#[test]
fn files_of_unknown_content_survive() {
    let unknown = || ScannedFile {
        path: "big.txt".to_string(),
        scan: Scan::Unknown { fingerprint: (7, 9) },
    };
    let idx = GrepBigram::build(&vec![scanned("a.rs", b"abc"), unknown(), scanned("b.rs", b"xyz")]);
    assert_eq!(names(&idx.filter(b"abc").expect("pairs")), vec!["a.rs", "big.txt"]);
    assert_eq!(names(&idx.filter(b"qq").expect("pairs")), vec!["big.txt"]);
    assert_eq!(idx.fingerprints[1], (7, 9));
    assert_eq!(idx.unknown, vec![false, true, false]);
}

#[test]
fn bits_behind_the_last_file_are_zero() {
    let files: Vec<ScannedFile> = (0..67).map(|i| scanned(&format!("f{i}"), b"ab")).collect();
    let idx = GrepBigram::build(&files);
    let key = (b'a' as u16) << 8 | b'b' as u16;
    assert_eq!(idx.posting[&key], vec![u64::MAX, 0b111]);
}

#[test]
fn counts_and_ordinals() {
    let idx = GrepBigram::build(&vec![
        scanned("a", b"ab"),
        scanned("b", b"abc"),
        scanned("a", b"zz"),
    ]);
    assert_eq!(idx.file_count(), 3);
    assert_eq!(idx.bigram_count(), 3);
    let map = idx.ordinal_map();
    assert_eq!(map.get("a"), Some(2));
    assert_eq!(map.get("b"), Some(1));
    assert_eq!(map.get("c"), None);
}

#[test]
fn fingerprints_without_a_time() {
    let m = FileMeta {
        is_file: true,
        modified: None,
        len: 5,
    };
    assert_eq!(fingerprint_from_metadata(&m), (0, 5));
}

#[test]
fn a_pattern_without_printable_pairs_filters_nothing() {
    let idx = GrepBigram::build(&vec![scanned("a", b"abc")]);
    assert!(idx.filter("\u{e9}\u{e9}".as_bytes()).is_none());
    let none = GrepBigram::build(&vec![]);
    assert!(none.filter(b"abc").is_none());
}
