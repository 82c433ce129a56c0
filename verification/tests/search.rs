use ffs_cli::bytes::find_in_chunk;
use ffs_cli::commands::grep::Args;
use ffs_cli::commands::grep::GrepError;
use ffs_cli::commands::grep::GrepResult;
use ffs_cli::commands::grep::WalkedFile;
use ffs_cli::commands::grep::prepare;
use ffs_cli::commands::grep::run;
use ffs_cli::hits::HitCollector;
use ffs_cli::hits::WalkStep;
use ffs_cli::matcher::Matcher;
use ffs_cli::matcher::ascii_case_eq;
use ffs_cli::matcher::looks_like_regex;
use ffs_cli::newlines::NewlineIndex;
use ffs_cli::render::Segment;
use ffs_cli::render::render_answer;
use ffs_cli::rows::rows_of_matches;
use ffs_cli::stream::StreamAction;
use ffs_cli::stream::StreamEvent;
use ffs_cli::stream::StreamSearch;
use ffs_cli::stream::stream_match_literal;

fn args(needle: &str) -> Args {
    Args {
        needle: needle.to_string(),
        limit: 200,
        offset: 0,
        case_sensitive: false,
        ignore_case: false,
        regex: false,
        fixed_strings: false,
        word_regexp: false,
        invert_match: false,
        max_count: 0,
        max_count_per_file: None,
        files_with_matches: false,
        files_without_match: false,
        hidden: false,
        no_ignore: false,
        text: false,
        globs: Vec::new(),
        only_matching: false,
        group: false,
        after_context: 0,
        before_context: 0,
        context: 0,
    }
}

fn file(path: &str, body: &str) -> WalkedFile {
    WalkedFile {
        path: path.to_string(),
        meta: None,
        content: Some(body.as_bytes().to_vec()),
    }
}

fn grep(args: Args, files: Vec<WalkedFile>) -> GrepResult {
    run(args, "/w", &files, None).expect("the search starts")
}

fn texts(r: &GrepResult) -> Vec<String> {
    r.hits.iter().map(|h| h.text.clone()).collect()
}

#[test]
fn detects_regex_metachars() {
    assert!(looks_like_regex("foo.*bar"));
    assert!(looks_like_regex("^EXPORT"));
    assert!(looks_like_regex("a|b"));
    assert!(!looks_like_regex("EXPORT_SYMBOL_GPL"));
    assert!(!looks_like_regex("simple_word"));
}

#[test]
fn byte_to_line_basic() {
    let h = b"first\nsecond\nthird\n";
    let idx = NewlineIndex::build(h);
    assert_eq!(idx.byte_to_line(h, 0).0, 1);
    assert_eq!(idx.byte_to_line(h, 6).0, 2);
    assert_eq!(idx.byte_to_line(h, 13).0, 3);
    assert_eq!(idx.byte_to_line(h, 6).1, 6);
    assert_eq!(idx.byte_to_line(h, 13).1, 13);
}

#[test]
fn a_newline_belongs_to_the_line_it_opens() {
    let h = b"first\nsecond";
    let idx = NewlineIndex::build(h);
    assert_eq!(idx.byte_to_line(h, 5), (2, 6, &h[6..12]));
    assert_eq!(idx.byte_to_line(h, 4), (1, 0, &h[0..5]));
    assert_eq!(idx.byte_to_line(h, 12), (2, 6, &h[6..12]));
}

#[test]
fn find_in_chunk_literal_match() {
    assert!(find_in_chunk(b"hello world", b"world", false));
    assert!(find_in_chunk(b"hello world", b"hello", false));
    assert!(!find_in_chunk(b"hello world", b"xyz", false));
}

#[test]
fn find_in_chunk_empty_needle() {
    assert!(find_in_chunk(b"anything", b"", false));
}

#[test]
fn find_in_chunk_case_insensitive() {
    assert!(find_in_chunk(b"Hello World", b"hello", true));
    assert!(find_in_chunk(b"Hello World", b"WORLD", true));
    assert!(!find_in_chunk(b"Hello World", b"xyz", true));
}

#[test]
fn find_in_chunk_single_byte() {
    assert!(find_in_chunk(b"abcdef", b"d", false));
    assert!(!find_in_chunk(b"abcdef", b"z", false));
}

fn pieces(data: &[u8], size: usize) -> Vec<Vec<u8>> {
    data.chunks(size).map(|c| c.to_vec()).collect()
}

#[test]
fn stream_match_basic() {
    let data = pieces(b"line one\nline two\nline three\n", 65536);
    assert!(stream_match_literal(&data, b"two", false));
    assert!(!stream_match_literal(&data, b"four", false));
}

#[test]
fn stream_match_empty_file() {
    assert!(!stream_match_literal(&vec![], b"anything", false));
    assert!(!stream_match_literal(&vec![vec![]], b"anything", false));
}

#[test]
fn stream_match_cross_boundary() {
    let mut data = vec![b'a'; 64 * 1024];
    let pos = 64 * 1024 - 4;
    data[pos..pos + 4].copy_from_slice(b"NEED");
    data.extend_from_slice(b"LEmore content here");
    let data = pieces(&data, 64 * 1024);
    assert_eq!(data.len(), 2);
    assert!(stream_match_literal(&data, b"NEEDLE", false));
    assert!(!stream_match_literal(&data, b"NEEDLENOPE", false));
}

#[test]
fn stream_match_case_insensitive() {
    let data = pieces(b"Hello World", 65536);
    assert!(stream_match_literal(&data, b"hello", true));
    assert!(stream_match_literal(&data, b"WORLD", true));
    assert!(!stream_match_literal(&data, b"xyz", true));
}

#[test]
fn stream_match_missing_file() {
    let mut search = StreamSearch::new(b"test", false);
    assert_eq!(
        search.step(StreamEvent::OpenFailed),
        StreamAction::Done { found: false }
    );
}

#[test]
fn stream_match_large_file_first_match() {
    let mut data = vec![b'x'; 1024 * 1024];
    data[100] = b'Y';
    data[101] = b'Z';
    let mut search = StreamSearch::new(b"YZ", false);
    assert_eq!(
        search.step(StreamEvent::Chunk(data[..65536].to_vec())),
        StreamAction::Done { found: true }
    );
    assert!(stream_match_literal(&pieces(&data, 65536), b"YZ", false));
}

#[test]
fn pieces_of_one_byte_hide_no_match() {
    let data = pieces(b"say NeEdLe!", 1);
    assert!(stream_match_literal(&data, b"needle", true));
    assert!(!stream_match_literal(&data, b"needle", false));
    let mut search = StreamSearch::new(b"ab", false);
    assert_eq!(
        search.step(StreamEvent::Chunk(b"a".to_vec())),
        StreamAction::Read { at_most: 65536 }
    );
    assert_eq!(
        search.step(StreamEvent::ReadFailed),
        StreamAction::Done { found: false }
    );
}

#[test]
fn ignore_case_forces_insensitive_over_smart_case() {
    let mut a = args("TODO");
    a.ignore_case = true;
    let r = grep(a, vec![file("/w/a.rs", "TODO here\ntodo there\n")]);
    assert_eq!(r.hits.len(), 2);
    let r = grep(args("TODO"), vec![file("/w/a.rs", "TODO here\ntodo there\n")]);
    assert_eq!(r.hits.len(), 1);
}

#[test]
fn invert_match_selects_non_matching_lines() {
    let mut a = args("foo");
    a.invert_match = true;
    let r = grep(a, vec![file("/w/a.rs", "keep this\nfoo line\nkeep that\n")]);
    assert_eq!(r.hits.len(), 2);
    assert_eq!(r.hits[0].text, "keep this");
    assert_eq!(r.hits[1].text, "keep that");
}

#[test]
fn only_matching_emits_one_row_per_match_on_shared_line() {
    let mut a = args("foo");
    a.only_matching = true;
    let r = grep(a, vec![file("/w/a.rs", "foo bar foo\n")]);
    assert_eq!(r.hits.len(), 2);
    for h in &r.hits {
        assert_eq!(h.text, "foo");
        assert_eq!(h.match_ranges, vec![(0, 3)]);
    }
}

#[test]
fn glob_filter_includes_only_matching_extension() {
    let mut a = args("needle");
    a.globs = vec!["*.rs".to_string()];
    let r = grep(
        a,
        vec![file("/w/a.rs", "needle\n"), file("/w/b.txt", "needle\n")],
    );
    assert_eq!(r.hits.len(), 1);
    assert!(r.hits[0].path.ends_with("a.rs"));
}

#[test]
fn glob_filter_exclude_pattern() {
    let mut a = args("needle");
    a.globs = vec!["!b.rs".to_string()];
    let r = grep(
        a,
        vec![file("/w/a.rs", "needle\n"), file("/w/b.rs", "needle\n")],
    );
    assert_eq!(r.hits.len(), 1);
    assert!(r.hits[0].path.ends_with("a.rs"));
}

#[test]
fn globs_match_below_the_root_and_do_not_cross_slashes() {
    let files = || {
        vec![
            file("/w/src/a.rs", "needle\n"),
            file("/w/src/deep/b.rs", "needle\n"),
            file("/w/target/c.rs", "needle\n"),
        ]
    };
    let mut a = args("needle");
    a.globs = vec!["src/*".to_string()];
    let r = grep(a, files());
    assert_eq!(r.hits.len(), 1);
    assert_eq!(r.hits[0].path, "/w/src/a.rs");
    let mut a = args("needle");
    a.globs = vec!["*.rs".to_string(), "!target/**".to_string()];
    let r = grep(a, files());
    assert_eq!(r.hits.len(), 2);
}

#[test]
fn max_count_per_file_caps_hits_per_file() {
    let mut a = args("needle");
    a.max_count_per_file = Some(2);
    let r = grep(a, vec![file("/w/a.rs", "needle\nneedle\nneedle\n")]);
    assert_eq!(r.hits.len(), 2);
}

#[test]
fn max_count_wins_over_its_short_form() {
    let mut a = args("needle");
    a.max_count = 1;
    a.max_count_per_file = Some(2);
    assert_eq!(a.matches_per_file(), 1);
    assert_eq!(args("x").matches_per_file(), usize::MAX);
    let r = grep(a, vec![file("/w/a.rs", "needle\nneedle\nneedle\n")]);
    assert_eq!(r.hits.len(), 1);
}

#[test]
fn files_without_match_lists_non_matching_files_only() {
    let mut a = args("needle");
    a.files_without_match = true;
    let r = grep(
        a,
        vec![file("/w/a.rs", "needle\n"), file("/w/b.rs", "nothing\n")],
    );
    assert_eq!(r.hits.len(), 1);
    assert!(r.hits[0].path.ends_with("b.rs"));
}

#[test]
fn files_with_matches_lists_each_file_once() {
    let mut a = args("needle");
    a.files_with_matches = true;
    let r = grep(
        a,
        vec![
            file("/w/b.rs", "needle needle\nneedle\n"),
            file("/w/a.rs", "needle\n"),
            file("/w/c.rs", "none\n"),
        ],
    );
    let paths: Vec<&str> = r.hits.iter().map(|h| h.path.as_str()).collect();
    assert_eq!(paths, vec!["/w/a.rs", "/w/b.rs"]);
    assert_eq!(r.hits[0].line, 0);
}

#[test]
fn inverted_paths() {
    let mut a = args("needle");
    a.files_with_matches = true;
    a.invert_match = true;
    let r = grep(
        a,
        vec![file("/w/a.rs", "needle\n"), file("/w/b.rs", "nothing\n")],
    );
    assert_eq!(r.hits.len(), 1);
    assert_eq!(r.hits[0].path, "/w/b.rs");
}

#[test]
fn whole_words_only() {
    let text = "error here\nterrors\nan error\nERROR\n";
    let mut a = args("error");
    a.word_regexp = true;
    let r = grep(a, vec![file("/w/a", text)]);
    assert_eq!(texts(&r), vec!["error here", "an error", "ERROR"]);
    assert_eq!(r.mode, "regex");
    let mut a = args("a.b");
    a.word_regexp = true;
    a.fixed_strings = true;
    let r = grep(a, vec![file("/w/a", "a.b\naxb\nxa.b\n")]);
    assert_eq!(texts(&r), vec!["a.b"]);
}

#[test]
fn regular_expressions_and_literals() {
    let r = grep(args("a.c"), vec![file("/w/a", "abc\na.c\n")]);
    assert_eq!(r.mode, "regex");
    assert_eq!(r.hits.len(), 2);
    let mut a = args("a.c");
    a.fixed_strings = true;
    let r = grep(a, vec![file("/w/a", "abc\na.c\n")]);
    assert_eq!(r.mode, "literal");
    assert_eq!(texts(&r), vec!["a.c"]);
    let mut a = args("b");
    a.regex = true;
    let r = grep(a, vec![file("/w/a", "abc\n")]);
    assert_eq!(r.mode, "regex");
    let r = grep(args("^b"), vec![file("/w/a", "ab\nb\n")]);
    assert_eq!(r.hits.len(), 1);
    assert_eq!(r.hits[0].line, 2);
}

#[test]
fn searches_that_cannot_start() {
    assert!(matches!(
        prepare(args("")),
        Err(GrepError::EmptyNeedle)
    ));
    match prepare(args("a(")) {
        Err(GrepError::InvalidRegex { needle, detail }) => {
            assert_eq!(needle, "a(");
            assert!(detail.contains("unclosed group"));
        }
        _ => panic!("a group that is not closed"),
    }
    let mut a = args("x");
    a.globs = vec!["ok".to_string(), "!a[".to_string()];
    match prepare(a) {
        Err(GrepError::InvalidGlob { pattern, detail }) => {
            assert_eq!(pattern, "!a[");
            assert!(detail.contains("unclosed character class"));
        }
        _ => panic!("a class that is not closed"),
    }
    let mut a = args("(");
    a.globs = vec!["[".to_string()];
    assert!(matches!(
        prepare(a),
        Err(GrepError::InvalidRegex { .. })
    ));
}

#[test]
fn context_around_a_match() {
    let mut a = args("hit");
    a.context = 1;
    let r = grep(a, vec![file("/w/a", "one\ntwo\nhit\nfour\nfive\n")]);
    assert_eq!(r.hits.len(), 1);
    assert_eq!(r.hits[0].context_before, vec!["two"]);
    assert_eq!(r.hits[0].context_after, vec!["four"]);
    let mut a = args("hit");
    a.context = 1;
    a.after_context = 5;
    assert_eq!(a.context_lines(), (1, 5));
    let r = grep(a, vec![file("/w/a", "hit\nfour\r\nfive")]);
    assert!(r.hits[0].context_before.is_empty());
    assert_eq!(r.hits[0].context_after, vec!["four", "five"]);
}

#[test]
fn matches_on_one_line_share_a_row() {
    let r = grep(args("foo"), vec![file("/w/a", "foo bar foo\nx\n")]);
    assert_eq!(r.hits.len(), 1);
    assert_eq!(r.hits[0].line, 1);
    assert_eq!(r.hits[0].text, "foo bar foo");
    assert_eq!(r.hits[0].match_ranges, vec![(0, 3), (8, 11)]);
}

#[test]
fn a_match_over_several_lines_is_shown_whole() {
    let r = grep(args("a\\nb"), vec![file("/w/a", "xa\nby\n")]);
    assert_eq!(r.hits.len(), 1);
    assert_eq!(r.hits[0].text, "a\\nb");
    assert_eq!(r.hits[0].match_ranges, vec![(0, 4)]);
}

#[test]
fn binary_files_are_left_out_unless_asked_for() {
    let body = "needle\u{0}\n";
    let r = grep(args("needle"), vec![file("/w/a", body)]);
    assert_eq!(r.hits.len(), 0);
    let mut a = args("needle");
    a.text = true;
    let r = grep(a, vec![file("/w/a", body)]);
    assert_eq!(r.hits.len(), 1);
}

#[test]
fn pages_follow_each_other() {
    let files = || {
        vec![
            file("/w/b", "x1\nx2\nx3\n"),
            file("/w/a", "x4\nx5\n"),
        ]
    };
    let all = grep(args("x"), files());
    assert!(!all.truncated);
    assert_eq!(all.total_matches_at_least, 5);
    let ordered = texts(&all);
    assert_eq!(ordered, vec!["x4", "x5", "x1", "x2", "x3"]);
    let mut a = args("x");
    a.limit = 2;
    a.offset = 4;
    let r = grep(a, files());
    assert_eq!(texts(&r), vec!["x3"]);
    assert_eq!(r.total_matches_at_least, 5);
    assert!(!r.truncated);
    let mut a = args("x");
    a.limit = 2;
    a.offset = 3;
    let r = grep(a, files());
    assert_eq!(texts(&r), vec!["x2", "x3"]);
    assert!(!r.truncated);
    let mut a = args("x");
    a.offset = 9;
    assert!(grep(a, files()).hits.is_empty());
}

#[test]
fn the_first_hits_of_a_walk_are_kept() {
    let mut a = args("x");
    a.limit = 2;
    let plan = prepare(a).expect("the search starts");
    let mut c: HitCollector = plan.collector();
    assert_eq!(
        plan.search_file("/w/1", b"x\n", &mut c),
        WalkStep::Continue
    );
    assert_eq!(
        plan.search_file("/w/2", b"x\nx\n", &mut c),
        WalkStep::Quit
    );
    assert!(c.stop);
    assert_eq!(c.found, 3);
    assert_eq!(c.hits.len(), 2);
    let r = plan.finish(c, 7);
    assert!(r.truncated);
    assert_eq!(r.total_files_searched, 7);
    assert_eq!(r.schema, "v1");
}

#[test]
fn comparison_of_letters() {
    assert!(ascii_case_eq(b"Hello, World!", b"hELLO, wORLD!"));
    assert!(!ascii_case_eq(b"Hello, World!", b"Hello, World?"));
    assert!(!ascii_case_eq(b"abcdefgh[", b"abcdefgh{"));
    assert!(!ascii_case_eq(b"a\x00b", b"a b"));
    assert!(ascii_case_eq(b"", b""));
    let m = Matcher::Literal { needle: b"a[0]".to_vec(), case_insensitive: true };
    assert!(m.is_match(b"A[0]"));
    assert!(!m.is_match(b"a{0}"));
    assert_eq!(m.find_iter(b"a{0} A[0]"), vec![(5, 9)]);
}

#[test]
fn matches_without_regard_to_case_may_overlap() {
    let (m, mode) = Matcher::build(&args("aba")).expect("a literal");
    assert_eq!(mode, "literal");
    assert_eq!(m.find_iter(b"ABABA"), vec![(0, 3), (2, 5)]);
    assert_eq!(m.find_iter(b"abABAaba"), vec![(0, 3), (2, 5), (5, 8)]);
    let (twice, _) = Matcher::build(&args("aa")).expect("a literal");
    assert_eq!(twice.find_iter(b"aaaa"), vec![(0, 2), (1, 3), (2, 4)]);
    assert!(m.is_match(b"xABa"));
    assert!(!m.is_match(b"ab"));
    let (m, _) = Matcher::build(&args("ABA")).expect("a literal");
    assert_eq!(m.find_iter(b"ABABA"), vec![(0, 3)]);
    let (m, _) = Matcher::build(&args("[AB]+")).expect("an expression");
    assert_eq!(m.find_iter(b"xABxB"), vec![(1, 3), (4, 5)]);
    assert!(!m.is_match(b"ab"));
}

fn flat(segments: &[Segment]) -> String {
    let mut out = String::new();
    for s in segments {
        match s {
            Segment::Plain(t) | Segment::Path(t) | Segment::Line(t) => out.push_str(t),
            Segment::Matched { text, .. } => out.push_str(text),
            Segment::Footer(f) => out.push_str(&format!(
                "[{} {} {} {}]",
                f.total, f.offset, f.returned, f.has_more
            )),
        }
    }
    out
}

#[test]
fn the_text_form_of_an_answer() {
    let mut a = args("hit");
    a.context = 1;
    let r = grep(a, vec![file("/w/a", "one\nhit\ntwo\n")]);
    assert_eq!(
        flat(&render_answer(&r)),
        "/w/a-one\n/w/a:2: hit\n/w/a-two\n--\n[1 0 1 false]"
    );
    let r = grep(args("none"), vec![file("/w/a", "x\n"), file("/w/b", "x\n")]);
    assert_eq!(flat(&render_answer(&r)), "[no matches across 2 files]\n");
    let mut a = args("x");
    a.files_with_matches = true;
    let r = grep(a, vec![file("/w/a", "x\n")]);
    assert_eq!(flat(&render_answer(&r)), "/w/a\n[1 0 1 false]");
}

#[test]
fn text_that_is_not_utf8_is_shown_with_replacements() {
    let files = vec![WalkedFile {
        path: "/w/a".to_string(),
        meta: None,
        content: Some(b"hit \xff\nother\n".to_vec()),
    }];
    let mut a = args("hit");
    a.context = 1;
    let r = run(a, "/w", &files, None).expect("the search starts");
    assert_eq!(r.hits[0].text, "hit \u{fffd}");
    assert!(r.hits[0].context_after.is_empty());
}

#[test]
fn each_line_is_in_a_search_or_in_its_inverse() {
    let text = "one\ntwo one\nthree\n\none more";
    let lines = |invert: bool| {
        let mut a = args("one");
        a.invert_match = invert;
        let r = grep(a, vec![file("/w/a", text)]);
        r.hits.iter().map(|h| h.line).collect::<Vec<u32>>()
    };
    assert_eq!(lines(false), vec![1, 2, 5]);
    assert_eq!(lines(true), vec![3, 4]);
}

#[test]
fn an_answer_that_is_not_truncated_is_whole() {
    let files = || vec![file("/w/a", "x\nx\n"), file("/w/b", "y\n"), file("/w/c", "x\n")];
    let found = |limit: usize| {
        let mut a = args("x");
        a.limit = limit;
        let r = grep(a, files());
        (r.total_matches_at_least, r.truncated)
    };
    assert_eq!(found(4), (3, false));
    assert_eq!(found(3), (3, false));
    assert_eq!(found(2), (2, true));
}

#[test]
fn rows_of_given_matches() {
    let content = b"one two\nthree\n";
    let rows = rows_of_matches(content, &vec![(0, 3), (4, 7), (8, 9)], false, false, usize::MAX);
    let shown: Vec<(u32, &str, usize)> = rows
        .iter()
        .map(|r| (r.line, r.text.as_str(), r.ranges.len()))
        .collect();
    assert_eq!(shown, vec![(1, "one two", 2), (2, "three", 1)]);
    let rows = rows_of_matches(content, &vec![(4, 9)], false, true, usize::MAX);
    assert_eq!(rows[0].text, "two\\nt");
    assert_eq!(rows[0].ranges, vec![(0, 6)]);
    let rows = rows_of_matches(content, &vec![(4, 9)], true, false, usize::MAX);
    assert_eq!((rows[0].line, rows[0].text.as_str()), (2, "three"));
    assert_eq!(rows_of_matches(content, &vec![], true, false, 0).len(), 1);
    assert!(rows_of_matches(content, &vec![(0, 3)], false, false, 0).is_empty());
    assert!(rows_of_matches(content, &vec![(0, 3)], false, true, 0).is_empty());
    assert_eq!(rows_of_matches(content, &vec![], true, false, 1).len(), 1);
}

#[test]
fn ranges_lie_within_their_text() {
    let content = b"one two\nthree\n";
    let rows = rows_of_matches(content, &vec![(0, 3), (4, 13)], false, false, usize::MAX);
    assert_eq!(rows.len(), 1);
    assert_eq!(rows[0].text, "one two");
    assert_eq!(rows[0].ranges, vec![(0, 3), (4, 7)]);
    let rows = rows_of_matches(content, &vec![(4, 13)], false, false, usize::MAX);
    assert_eq!(rows[0].text, "two\\nthree");
    assert_eq!(rows[0].ranges, vec![(0, 10)]);
}

#[test]
fn files_that_are_shown() {
    let shown = |with: bool, invert: bool, matched: bool| {
        let mut a = args("x");
        a.files_with_matches = with;
        a.files_without_match = !with;
        a.invert_match = invert;
        a.shows(matched)
    };
    assert!(shown(true, false, true));
    assert!(!shown(true, false, false));
    assert!(!shown(false, false, true));
    assert!(shown(false, false, false));
    assert!(!shown(true, true, true));
    assert!(shown(false, true, true));
}
