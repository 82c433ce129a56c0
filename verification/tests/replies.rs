use ffs_cli::answers::Dispatched;
use ffs_cli::calls::handle_tool;
use ffs_cli::calls::ToolCall;
use ffs_cli::json::Json;
use ffs_cli::line_search::LineHit;
use ffs_cli::line_search::SourceFile;
use ffs_cli::replies::answer_from_files;
use ffs_cli::replies::reply;
use ffs_cli::replies::Finding;
use ffs_cli::replies::Reply;
use ffs_cli::tally::rank;
use ffs_cli::tally::tally;

fn call(tool: &str, fields: Vec<(&str, Json)>) -> ToolCall {
    let fields = fields.into_iter().map(|(k, v)| (k.to_string(), v)).collect();
    handle_tool("/w", tool, &Json::Object(fields)).expect("a call")
}

fn source(path: &str, text: &str) -> SourceFile {
    SourceFile {
        path: path.to_string(),
        text: Some(text.to_string()),
    }
}

fn items(found: Option<Reply>) -> Vec<Json> {
    match found {
        Some(Reply::Data(Json::List(items))) => items,
        other => panic!("{:?}", other),
    }
}

fn lines(found: Option<Reply>) -> Vec<(u64, String)> {
    items(found)
        .iter()
        .map(|h| {
            let line = h.get_whole("line").expect("a line");
            (line, h.get_text("text").expect("a text").to_string())
        })
        .collect()
}

fn weights(found: Option<Reply>) -> Vec<(String, u64)> {
    items(found)
        .iter()
        .map(|h| {
            let path = h.get_text("path").expect("a path").to_string();
            (path, h.get_whole("weight").expect("a weight"))
        })
        .collect()
}

#[test]
fn a_search_starts_behind_its_offset() {
    let files = vec![source("/w/a.txt", "x1\nx2\nx3\n")];
    let page = |offset: u64, limit: u64| {
        let c = call(
            "ffs_grep",
            vec![
                ("query", Json::text("x")),
                ("maxResults", Json::Whole(limit)),
                ("offset", Json::Whole(offset)),
            ],
        );
        lines(answer_from_files("/w", &files, &c))
    };
    assert_eq!(page(1, 1), vec![(2, "x2".to_string())]);
    assert_eq!(page(0, 2), vec![(1, "x1".to_string()), (2, "x2".to_string())]);
    assert_eq!(page(2, 2), vec![(3, "x3".to_string())]);
    assert!(page(3, 2).is_empty());
    let c = call("ffs_grep", vec![("query", Json::text("x"))]);
    assert_eq!((c.offset, c.limit, c.take()), (0, 20, 20));
    assert_eq!(lines(answer_from_files("/w", &files, &c)).len(), 3);
}

#[test]
fn paths_start_behind_the_offset() {
    let c = call(
        "ffs_glob",
        vec![
            ("pattern", Json::text("*.rs")),
            ("maxResults", Json::Whole(2)),
            ("offset", Json::Whole(1)),
        ],
    );
    assert_eq!((c.offset, c.limit, c.take()), (1, 2, 3));
    let found = ["a.rs", "b.rs", "c.rs"].iter().map(|s| s.to_string()).collect();
    let shown = items(reply(&c, Finding::Names(found)));
    assert_eq!(shown.len(), 2);
    assert!(matches!(&shown[0], Json::Text(t) if t == "b.rs"));
    assert!(matches!(&shown[1], Json::Text(t) if t == "c.rs"));
}

#[test]
fn tools_without_pages_have_no_offset() {
    let c = call(
        "ffs_find",
        vec![("query", Json::text("x")), ("offset", Json::Whole(3))],
    );
    assert_eq!(c.offset, 0);
}

#[test]
fn a_read_has_a_token_budget() {
    let c = call(
        "ffs_read",
        vec![("path", Json::text("a.rs")), ("maxTokens", Json::Whole(700))],
    );
    assert_eq!(c.max_tokens, Some(700));
    let c = call(
        "ffs_read",
        vec![("path", Json::text("a.rs")), ("maxTokens", Json::Whole(0))],
    );
    assert_eq!(c.max_tokens, None);
    let c = call("ffs_read", vec![("path", Json::text("a.rs"))]);
    assert_eq!(c.max_tokens, None);
    let c = call(
        "ffs_outline",
        vec![("path", Json::text("a.rs")), ("maxTokens", Json::Whole(700))],
    );
    assert_eq!(c.max_tokens, None);
}

#[test]
fn files_are_ranked_by_their_calls() {
    let files = vec![
        source("/w/a.rs", "foo_x();\n"),
        source("/w/b.rs", "foo_x();\nfoo_x();\n"),
        source("/w/c.rs", "none\n"),
        source("/w/d.rs", "foo_x();\n"),
    ];
    let c = call("ffs_impact", vec![("name", Json::text("foo_x"))]);
    assert_eq!(
        weights(answer_from_files("/w", &files, &c)),
        vec![
            ("b.rs".to_string(), 2),
            ("a.rs".to_string(), 1),
            ("d.rs".to_string(), 1),
        ]
    );
    let c = call(
        "ffs_impact",
        vec![("name", Json::text("foo_x")), ("maxResults", Json::Whole(1))],
    );
    assert_eq!(c.take(), usize::MAX);
    assert_eq!(
        weights(answer_from_files("/w", &files, &c)),
        vec![("b.rs".to_string(), 2)]
    );
    let c = call("ffs_callers", vec![("name", Json::text("foo_x"))]);
    assert_eq!(lines(answer_from_files("/w", &files, &c)).len(), 4);
    let c = call("ffs_symbol", vec![("name", Json::text("foo_x"))]);
    assert!(answer_from_files("/w", &files, &c).is_none());
}

#[test]
fn rankings_of_tallies() {
    let names: Vec<String> = ["b", "c", "a", "c", "b", "d"]
        .iter()
        .map(|s| s.to_string())
        .collect();
    let shown: Vec<(String, usize)> = rank(&tally(&names))
        .into_iter()
        .map(|t| (t.name, t.count))
        .collect();
    assert_eq!(
        shown,
        vec![
            ("b".to_string(), 2),
            ("c".to_string(), 2),
            ("a".to_string(), 1),
            ("d".to_string(), 1),
        ]
    );
}

#[test]
fn each_tool_has_its_answer() {
    let c = call("ffs_read", vec![("path", Json::text("a.rs"))]);
    assert!(matches!(
        reply(&c, Finding::Text("body".to_string())),
        Some(Reply::Plain(t)) if t == "body"
    ));
    let one = || {
        Finding::Lines(vec![LineHit {
            path: "a.rs".to_string(),
            line: 4,
            text: "x".to_string(),
        }])
    };
    assert!(reply(&c, one()).is_none());
    let c = call("ffs_callers", vec![("name", Json::text("x"))]);
    assert_eq!(lines(reply(&c, one())), vec![(4, "x".to_string())]);
    assert!(reply(&c, Finding::Text(String::new())).is_none());
    let c = call("ffs_dispatch", vec![("query", Json::text("x"))]);
    match reply(&c, Finding::Query(Dispatched::ContentFallback)) {
        Some(Reply::Data(value)) => {
            assert_eq!(value.get_text("kind").expect("a kind"), "content_fallback")
        }
        other => panic!("{:?}", other),
    }
    let c = call(
        "ffs_find",
        vec![("query", Json::text("x")), ("maxResults", Json::Whole(1))],
    );
    let found = Finding::Matches {
        exact: Vec::new(),
        fuzzy: vec![Json::text("p"), Json::text("q")],
    };
    assert_eq!(items(reply(&c, found)).len(), 1);
}
