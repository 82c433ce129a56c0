use ffs_cli::cache::bigram_index_fits;
use ffs_cli::cache::file_count_within_tolerance;
use ffs_cli::cache::head_matches;
use ffs_cli::cache::load_or_build_engine;
use ffs_cli::cache::read_git_head;
use ffs_cli::cache::ref_path;
use ffs_cli::cache::refresh_symbol_index;
use ffs_cli::cache::CacheDir;
use ffs_cli::cache::CacheMeta;
use ffs_cli::cache::DiskFile;
use ffs_cli::cache::EnginePlan;

fn some(s: &str) -> Option<String> {
    Some(s.to_string())
}

#[test]
fn cache_dir_paths_are_under_dot_ffs() {
    let cache = CacheDir::at("/tmp/example");
    assert!(cache
        .symbol_path()
        .ends_with(".ffs/symbol_index.postcard.zst"));
    assert!(cache.meta_path().ends_with(".ffs/meta.json"));
    assert_eq!(cache.bigram_path(), "/tmp/example/.ffs/bigram.postcard.zst");
    assert_eq!(cache.dir(), "/tmp/example/.ffs");
}

#[test]
fn invalidate_on_schema_mismatch() {
    let cache = CacheDir::at("/r");
    let written = cache
        .write_symbol_index(b"fn alpha() {}\n", None, 1, "1.0", 0)
        .expect("compresses");
    let stale = CacheMeta {
        schema_version: "v0".to_string(),
        ffs_version: "1.0".to_string(),
        git_head: None,
        file_count: 1,
        generated_at_ms: 0,
    };
    let file = Some(written.payload.bytes);
    assert!(cache
        .load_symbol_index(&Some(stale), &None, 1, &file)
        .is_none());
}

#[test]
fn roundtrips_symbol_index_through_disk() {
    let cache = CacheDir::at("/r");
    let index = b"fn alpha() {}\nfn beta() {}\n";
    let w = cache
        .write_symbol_index(index, None, 1, "1.0", 0)
        .expect("compresses");
    let loaded = cache
        .load_symbol_index(&Some(w.meta), &None, 1, &Some(w.payload.bytes))
        .expect("cache hit");
    assert_eq!(loaded, index);
}

#[test]
fn invalidate_on_head_change() {
    let cache = CacheDir::at("/r");
    let w = cache
        .write_symbol_index(b"fn alpha() {}\n", None, 1, "1.0", 0)
        .expect("compresses");
    let head = read_git_head("/r", &some("deadbeefdeadbeefdeadbeef\n"), &None);
    let file = Some(w.payload.bytes);
    assert!(cache
        .load_symbol_index(&Some(w.meta), &head, 1, &file)
        .is_none());
}

#[test]
fn load_symbol_index_stale_returns_some_when_head_changes() {
    let cache = CacheDir::at("/r");
    let w = cache
        .write_symbol_index(b"fn alpha() {}\n", None, 1, "1.0", 0)
        .expect("compresses");
    let head = read_git_head("/r", &some("deadbeef\n"), &None);
    let (meta, file) = (Some(w.meta), Some(w.payload.bytes));
    assert!(cache.load_symbol_index(&meta, &head, 1, &file).is_none());
    assert!(cache.load_symbol_index_stale(&meta, &file).is_some());
}

#[test]
fn refresh_symbol_index_drops_deleted_files_and_parses_new_ones() {
    let indexed = vec!["a.rs".to_string(), "b.rs".to_string()];
    let on_disk = vec![
        disk("b.rs", Some((20, 18)), Some(0)),
        disk("c.rs", Some((20, 15)), None),
    ];
    let r = refresh_symbol_index(&indexed, &on_disk);
    assert_eq!(r.stale, vec!["a.rs"]);
    assert_eq!(r.changed, vec!["b.rs", "c.rs"]);
}

#[test]
fn refresh_symbol_index_preserves_unchanged_files() {
    let indexed = vec!["stable.rs".to_string(), "touched.rs".to_string()];
    let on_disk = vec![
        disk("stable.rs", Some((0, 14)), Some(0)),
        disk("touched.rs", Some((20, 16)), Some(0)),
    ];
    let r = refresh_symbol_index(&indexed, &on_disk);
    assert!(r.stale.is_empty());
    assert_eq!(r.changed, vec!["touched.rs"]);
}

#[test]
fn what_was_written_is_loaded() {
    let cache = CacheDir::at("/r");
    let payload = b"fn alpha() {}\nfn beta() {}\n".repeat(50);
    let w = cache
        .write_symbol_index(&payload, some("abc"), 40, "1.0", 12)
        .expect("compresses");
    assert_eq!(w.payload.path, "/r/.ffs/symbol_index.postcard.zst");
    assert_eq!(w.meta_path, "/r/.ffs/meta.json");
    assert_eq!(w.meta.generated_at_ms, 12);
    assert!(w.payload.bytes.len() < payload.len());
    let file = Some(w.payload.bytes);
    let meta = Some(w.meta);
    assert_eq!(
        cache.load_symbol_index(&meta, &some("abc"), 50, &file),
        Some(payload.clone())
    );
    assert_eq!(cache.load_symbol_index(&meta, &some("abc"), 51, &file), None);
    assert_eq!(cache.load_symbol_index(&meta, &None, 40, &file), None);
    assert_eq!(cache.load_symbol_index(&None, &some("abc"), 40, &file), None);
    assert_eq!(cache.load_symbol_index(&meta, &some("abc"), 40, &None), None);
    assert_eq!(
        cache.load_symbol_index(&meta, &some("abc"), 40, &Some(b"no frame".to_vec())),
        None
    );
    assert_eq!(
        cache.load_symbol_index_stale(&meta, &file),
        Some(payload)
    );
}

#[test]
fn either_outcome_of_the_compression() {
    let cache = CacheDir::at("/r");
    let w = cache.bigram_file(Ok(vec![1, 2])).expect("there are bytes");
    assert_eq!((w.path.as_str(), w.bytes), ("/r/.ffs/bigram.postcard.zst", vec![1, 2]));
    let refused = cache.bigram_file(Err("no memory".to_string()));
    assert_eq!(refused.expect_err("there are none").detail, "no memory");
    let w = cache
        .symbol_files(Ok(vec![3]), some("abc"), 4, "1.0", 5)
        .expect("there are bytes");
    assert_eq!(w.payload.path, "/r/.ffs/symbol_index.postcard.zst");
    assert_eq!(w.payload.bytes, vec![3]);
    assert_eq!(w.meta.schema_version, "v1");
    assert_eq!(w.meta.ffs_version, "1.0");
    assert_eq!(w.meta.git_head, some("abc"));
    assert_eq!((w.meta.file_count, w.meta.generated_at_ms), (4, 5));
    let refused = cache.symbol_files(Err("no memory".to_string()), None, 4, "1.0", 5);
    assert_eq!(refused.expect_err("there are none").detail, "no memory");
}

#[test]
fn a_small_workspace_needs_no_bigram_index() {
    let cache = CacheDir::at("/r");
    let w = cache.write_bigram_index(b"payload").expect("compresses");
    assert_eq!(w.path, "/r/.ffs/bigram.postcard.zst");
    let file = Some(w.bytes);
    let meta = |n: usize, schema: &str| {
        Some(CacheMeta {
            schema_version: schema.to_string(),
            ffs_version: "1.0".to_string(),
            git_head: None,
            file_count: n,
            generated_at_ms: 0,
        })
    };
    assert_eq!(
        cache.load_bigram_index(&meta(2000, "v1"), &None, &file),
        Some(b"payload".to_vec())
    );
    assert_eq!(cache.load_bigram_index(&meta(1999, "v1"), &None, &file), None);
    assert_eq!(cache.load_bigram_index(&meta(2000, "v2"), &None, &file), None);
    assert_eq!(
        cache.load_bigram_index(&meta(2000, "v1"), &some("x"), &file),
        None
    );
    let ready = |n: usize, schema: &str| {
        bigram_index_fits(&meta(n, schema).expect("a description"), &None)
    };
    assert!(ready(2000, "v1"));
    assert!(!ready(1999, "v1"));
    assert!(!ready(2000, "v2"));
}

#[test]
fn how_to_come_by_an_engine() {
    let cache = CacheDir::at("/r");
    assert!(matches!(
        load_or_build_engine(&cache, &None, &None, 1, &None),
        EnginePlan::Rebuild
    ));
    let w = cache
        .write_symbol_index(b"index", None, 1, "1.0", 0)
        .expect("compresses");
    let file = Some(w.payload.bytes);
    let meta = Some(w.meta);
    match load_or_build_engine(&cache, &meta, &None, 1, &file) {
        EnginePlan::Reuse { payload } => assert_eq!(payload, b"index"),
        other => panic!("{:?}", other),
    }
    match load_or_build_engine(&cache, &meta, &some("deadbeef"), 1, &file) {
        EnginePlan::Refresh { payload } => assert_eq!(payload, b"index"),
        other => panic!("{:?}", other),
    }
}

#[test]
fn drift_in_the_number_of_files() {
    assert!(file_count_within_tolerance(0, 10));
    assert!(file_count_within_tolerance(20, 10));
    assert!(!file_count_within_tolerance(21, 10));
    assert!(file_count_within_tolerance(1050, 1000));
    assert!(file_count_within_tolerance(950, 1000));
    assert!(!file_count_within_tolerance(1051, 1000));
    assert!(!file_count_within_tolerance(0, usize::MAX));
}

#[test]
fn the_head_of_a_repository() {
    assert_eq!(read_git_head("/r", &None, &None), None);
    assert_eq!(
        read_git_head("/r", &some("deadbeef\n"), &None),
        some("deadbeef")
    );
    assert_eq!(ref_path("/r", "deadbeef\n"), None);
    let head = "ref: refs/heads/main\n";
    assert_eq!(ref_path("/r", head), some("/r/.git/refs/heads/main"));
    assert_eq!(
        read_git_head("/r", &some(head), &some(" 1234\n")),
        some("1234")
    );
    assert_eq!(read_git_head("/r", &some(head), &None), None);
    assert!(head_matches(&None, &None));
    assert!(!head_matches(&some("a"), &None));
    assert!(!head_matches(&some("a"), &some("b")));
    assert!(head_matches(&some("a"), &some("a")));
}

fn disk(path: &str, stat: Option<(i128, u64)>, recorded: Option<i128>) -> DiskFile {
    DiskFile {
        path: path.to_string(),
        stat,
        recorded,
    }
}

#[test]
fn a_refresh_drops_what_is_gone_and_parses_what_changed() {
    let indexed = vec!["a.rs".to_string(), "b.rs".to_string(), "s.rs".to_string()];
    let on_disk = vec![
        disk("b.rs", Some((2, 10)), Some(1)),
        disk("c.rs", Some((2, 10)), None),
        disk("s.rs", Some((1, 10)), Some(1)),
        disk("empty.rs", Some((1, 0)), None),
        disk("big.rs", Some((1, 4 * 1024 * 1024 + 1)), None),
        disk("limit.rs", Some((1, 4 * 1024 * 1024)), None),
        disk("lost.rs", None, None),
    ];
    let r = refresh_symbol_index(&indexed, &on_disk);
    assert_eq!(r.stale, vec!["a.rs"]);
    assert_eq!(r.changed, vec!["b.rs", "c.rs", "limit.rs"]);
}

#[test]
fn a_refresh_drops_files_that_can_be_parsed_no_more() {
    let indexed: Vec<String> = ["empty.rs", "big.rs", "small.rs", "lost.rs"]
        .iter()
        .map(|s| s.to_string())
        .collect();
    let on_disk = vec![
        disk("empty.rs", Some((2, 0)), Some(1)),
        disk("big.rs", Some((2, 4 * 1024 * 1024 + 1)), Some(1)),
        disk("small.rs", Some((1, 0)), Some(1)),
        disk("lost.rs", None, Some(1)),
    ];
    let r = refresh_symbol_index(&indexed, &on_disk);
    assert_eq!(r.stale, vec!["empty.rs", "big.rs"]);
    assert!(r.changed.is_empty());
}
