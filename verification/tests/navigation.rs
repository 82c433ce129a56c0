use ffs_cli::answers::callees_json;
use ffs_cli::answers::dispatch_json;
use ffs_cli::answers::find_json;
use ffs_cli::answers::flow_json;
use ffs_cli::answers::impact_json;
use ffs_cli::answers::line_hits_json;
use ffs_cli::answers::overview_json;
use ffs_cli::answers::refs_json;
use ffs_cli::answers::siblings_json;
use ffs_cli::answers::symbols_json;
use ffs_cli::answers::texts_json;
use ffs_cli::answers::Dispatched;
use ffs_cli::answers::FlowDefinition;
use ffs_cli::answers::Lang;
use ffs_cli::answers::SymbolLocation;
use ffs_cli::callees::callee_candidates;
use ffs_cli::callees::collect_callees;
use ffs_cli::callees::split_words;
use ffs_cli::callees::CalleeHit;
use ffs_cli::file_map::render_simple_map;
use ffs_cli::json::Json;
use ffs_cli::line_search::collect_callers;
use ffs_cli::line_search::grep_files;
use ffs_cli::line_search::LineHit;
use ffs_cli::line_search::SourceFile;
use ffs_cli::multi_search::grep_one_by_one;
use ffs_cli::multi_search::multi_grep_files;
use ffs_cli::multi_search::MultiSearch;
use ffs_cli::sections::body_limit;
use ffs_cli::sections::cut_footer;
use ffs_cli::sections::first_bytes;
use ffs_cli::sections::fits;
use ffs_cli::sections::read_section_excerpt;
use ffs_cli::sections::section_body;
use ffs_cli::sections::slice_lines;
use ffs_cli::sections::Section;
use ffs_cli::tally::tally;
use ffs_cli::tree::collect_siblings;
use ffs_cli::tree::deepest_containing;
use ffs_cli::tree::list_imports;
use ffs_cli::tree::sibling_peers;
use ffs_cli::tree::OutlineEntry;

fn show(j: &Json) -> String {
    match j {
        Json::Null => "null".to_string(),
        Json::Bool(b) => format!("{}", b),
        Json::Whole(n) | Json::Rounded(n) => format!("{}", n),
        Json::Negative(n) => format!("{}", n),
        Json::Text(t) => format!("{:?}", t),
        Json::List(items) => {
            let parts: Vec<String> = items.iter().map(show).collect();
            format!("[{}]", parts.join(","))
        }
        Json::Object(fields) => {
            let parts: Vec<String> = fields
                .iter()
                .map(|(k, v)| format!("{:?}:{}", k, show(v)))
                .collect();
            format!("{{{}}}", parts.join(","))
        }
    }
}

fn file(path: &str, text: &str) -> SourceFile {
    SourceFile {
        path: path.to_string(),
        text: Some(text.to_string()),
    }
}

fn rows(hits: &[LineHit]) -> Vec<(&str, usize, &str)> {
    hits.iter()
        .map(|h| (h.path.as_str(), h.line, h.text.as_str()))
        .collect()
}

fn sources() -> Vec<SourceFile> {
    vec![
        file("/w/a.rs", "fn one() {}\n  One();\n"),
        SourceFile {
            path: "/w/gone.rs".to_string(),
            text: None,
        },
        file("/w/src/b.rs", "one(); two()\r\none()\n"),
    ]
}

fn strings(all: &[&str]) -> Vec<String> {
    all.iter().map(|s| s.to_string()).collect()
}

#[test]
fn lines_with_a_query() {
    let hits = grep_files("/w", &sources(), "one", 20);
    assert_eq!(
        rows(&hits),
        vec![
            ("a.rs", 1, "fn one() {}"),
            ("a.rs", 2, "One();"),
            ("src/b.rs", 1, "one(); two()"),
            ("src/b.rs", 2, "one()"),
        ]
    );
    let hits = grep_files("/w", &sources(), "One", 20);
    assert_eq!(rows(&hits), vec![("a.rs", 2, "One();")]);
    assert_eq!(grep_files("/w", &sources(), "one", 3).len(), 3);
    assert!(grep_files("/w", &sources(), "one", 0).is_empty());
}

#[test]
fn lines_with_calls() {
    let hits = collect_callers("/w", &sources(), "one", 20);
    assert_eq!(
        rows(&hits),
        vec![
            ("a.rs", 1, "fn one() {}"),
            ("src/b.rs", 1, "one(); two()"),
            ("src/b.rs", 2, "one()"),
        ]
    );
    assert_eq!(
        show(&line_hits_json(&hits[1..2].iter().map(copy).collect())),
        "[{\"path\":\"src/b.rs\",\"line\":1,\"text\":\"one(); two()\"}]"
    );
    assert_eq!(
        show(&impact_json(&hits, 50)),
        "[{\"path\":\"src/b.rs\",\"weight\":2},{\"path\":\"a.rs\",\"weight\":1}]"
    );
    assert_eq!(
        show(&impact_json(&hits, 1)),
        "[{\"path\":\"src/b.rs\",\"weight\":2}]"
    );
}

fn copy(h: &LineHit) -> LineHit {
    LineHit {
        path: h.path.clone(),
        line: h.line,
        text: h.text.clone(),
    }
}

#[test]
fn lines_with_one_of_many_patterns() {
    let hits = multi_grep_files("/w", &sources(), &strings(&["two", "one"]), 20);
    assert_eq!(
        rows(&hits),
        vec![
            ("a.rs", 1, "fn one() {}"),
            ("a.rs", 2, "One();"),
            ("src/b.rs", 1, "one(); two()"),
            ("src/b.rs", 2, "one()"),
        ]
    );
    let hits = multi_grep_files("/w", &sources(), &strings(&["two", "One"]), 20);
    assert_eq!(
        rows(&hits),
        vec![("a.rs", 2, "One();"), ("src/b.rs", 1, "one(); two()")]
    );
    assert_eq!(
        multi_grep_files("/w", &sources(), &strings(&["one"]), 2).len(),
        2
    );
    assert!(multi_grep_files("/w", &sources(), &vec![], 20).is_empty());
    assert!(multi_grep_files("/w", &sources(), &strings(&["one"]), 0).is_empty());
}

#[test]
fn given_matches_share_lines() {
    let mut search = MultiSearch::new(&strings(&["x"]), 3).expect("an automaton");
    search.add_matches("a", " one \ntwo\n", &vec![(0, 1), (2, 3), (7, 8), (10, 10)]);
    assert!(search.is_full());
    let hits = search.into_hits();
    assert_eq!(rows(&hits), vec![("a", 1, "one"), ("a", 2, "two"), ("a", 3, "")]);
}

#[test]
fn patterns_one_after_the_other() {
    let hits = grep_one_by_one("/w", &sources(), &strings(&["two", "One"]), 20);
    assert_eq!(
        rows(&hits),
        vec![("src/b.rs", 1, "one(); two()"), ("a.rs", 2, "One();")]
    );
    assert_eq!(
        grep_one_by_one("/w", &sources(), &strings(&["one", "two"]), 4).len(),
        4
    );
}

fn entry(kind: &str, name: &str, from: u32, to: u32, children: Vec<OutlineEntry>) -> OutlineEntry {
    OutlineEntry {
        name: name.to_string(),
        kind: kind.to_string(),
        start_line: from,
        end_line: to,
        children,
    }
}

fn outline() -> Vec<OutlineEntry> {
    vec![
        entry("Import", "std::fmt", 1, 1, vec![]),
        entry(
            "Struct",
            "S",
            2,
            9,
            vec![
                entry("Function", "new", 3, 5, vec![]),
                entry("Function", "go", 6, 8, vec![]),
            ],
        ),
        entry("Function", "go", 10, 12, vec![]),
    ]
}

#[test]
fn the_innermost_entry() {
    let tree = outline();
    let name = |line: u32| deepest_containing(&tree, line).map(|e| e.name.clone());
    assert_eq!(name(4), Some("new".to_string()));
    assert_eq!(name(9), Some("S".to_string()));
    assert_eq!(name(10), Some("go".to_string()));
    assert_eq!(name(13), None);
    let beside = vec![
        entry("Function", "first", 1, 9, vec![]),
        entry("Function", "second", 5, 7, vec![]),
    ];
    assert_eq!(
        deepest_containing(&beside, 6).map(|e| e.name.clone()),
        Some("second".to_string())
    );
}

#[test]
fn the_siblings_of_an_entry() {
    let tree = outline();
    let (scope, peers) = sibling_peers(&tree, "go", 6).expect("it is there");
    assert_eq!(scope, "S");
    assert_eq!(peers.len(), 1);
    assert_eq!(peers[0].name, "new");
    let (scope, peers) = sibling_peers(&tree, "go", 10).expect("it is there");
    assert_eq!(scope, "<file>");
    assert_eq!(peers.len(), 2);
    assert!(sibling_peers(&tree, "go", 7).is_none());

    let mut hits = Vec::new();
    assert!(!collect_siblings(&mut hits, &tree, "go", 6, "/w/a.rs", 5));
    assert!(!collect_siblings(&mut hits, &tree, "go", 6, "/w/a.rs", 5));
    assert_eq!(
        show(&siblings_json(&hits)),
        "[{\"name\":\"new\",\"kind\":\"function\",\"path\":\"/w/a.rs\",\"line\":3}]"
    );
    assert!(collect_siblings(&mut hits, &tree, "go", 10, "/w/a.rs", 2));
    assert_eq!(hits.len(), 2);
    assert_eq!(hits[1].kind, "import");
}

#[test]
fn the_imports_of_a_file() {
    let imports = list_imports(&outline());
    assert_eq!(show(&texts_json(&imports)), "[\"std::fmt\"]");
    assert!(list_imports(&vec![entry("import", "x", 1, 1, vec![])]).is_empty());
}

#[test]
fn the_section_around_a_line() {
    let text = "fn main() {\n    let msg = \"hi\";\n    println!(\"{msg}\");\n}\nfn other() {}\n";
    let tree = vec![
        entry("Function", "main", 1, 4, vec![]),
        entry("Function", "other", 5, 5, vec![]),
    ];
    let section = section_body(text, &tree, 2).expect("a section");
    assert_eq!(section.head, "// function main (lines 1-4)\n");
    assert_eq!(
        section.slice,
        "fn main() {\n    let msg = \"hi\";\n    println!(\"{msg}\");\n}\n"
    );
    let refused = section_body(text, &tree, 6).expect_err("no section");
    assert_eq!(refused.message(), "no structural section contains line 6");
}

#[test]
fn slices_of_lines() {
    let text = "a\nb\r\nc";
    assert_eq!(slice_lines(text, 2, 3), "b\nc\n");
    assert_eq!(slice_lines(text, 0, 1), "a\n");
    assert_eq!(slice_lines(text, 3, 9), "c\n");
    assert_eq!(slice_lines(text, 3, 2), "");
    let text = Some(text.to_string());
    assert_eq!(read_section_excerpt(&text, 1, 9, 60), "a\nb\nc");
    assert_eq!(read_section_excerpt(&text, 1, 9, 2), "a\nb");
    assert_eq!(read_section_excerpt(&None, 1, 9, 60), "");
}

#[test]
fn bytes_of_a_body() {
    assert_eq!(body_limit(100, 1000), 400);
    assert_eq!(body_limit(1000, 1000), 1000);
    assert!(fits("né", 3));
    assert!(!fits("né", 2));
    assert_eq!(cut_footer(), "[truncated to budget]\n");
    assert_eq!(first_bytes("né!", 3), Some("né".to_string()));
    assert_eq!(first_bytes("né!", 2), None);
    assert_eq!(first_bytes("né!", 9), Some("né!".to_string()));
    let section = Section {
        head: "// head\n".to_string(),
        slice: "a\nb\n".to_string(),
    };
    assert_eq!(section.with_body("a\n"), "// head\na\n");
}

fn names(hits: &[CalleeHit]) -> Vec<(&str, usize)> {
    hits.iter().map(|h| (h.name.as_str(), h.line)).collect()
}

#[test]
fn words_in_a_body() {
    assert_eq!(split_words("a.b_c(d)"), vec!["a", "b_c", "d", ""]);
    assert_eq!(split_words(""), vec![""]);
    let text = "use it;\nfn run() {\n    run(go, walk);\n}\nlater()\n";
    let found = callee_candidates(text, 2, 4, "run");
    assert_eq!(names(&found), vec![("walk", 3)]);
    assert_eq!(names(&callee_candidates("é ab éa", 1, 9, "x")), vec![("éa", 1)]);
}

#[test]
fn known_callees() {
    let found = vec![
        CalleeHit {
            name: "walk".to_string(),
            line: 3,
        },
        CalleeHit {
            name: "let".to_string(),
            line: 3,
        },
        CalleeHit {
            name: "halt".to_string(),
            line: 4,
        },
    ];
    let mut hits = Vec::new();
    assert!(!collect_callees(&mut hits, &found, &vec![true, false, true], 3));
    assert_eq!(names(&hits), vec![("walk", 3), ("halt", 4)]);
    assert!(collect_callees(&mut hits, &found, &vec![true, false, true], 3));
    assert_eq!(hits.len(), 3);
    assert_eq!(
        show(&callees_json(&hits)),
        "[{\"name\":\"walk\",\"line\":3},{\"name\":\"halt\",\"line\":4},{\"name\":\"walk\",\"line\":3}]"
    );
}

#[test]
fn a_map_of_files() {
    let files = strings(&["/w/src/a.rs", "/w/src/sub/b.rs", "/w/src-gen/c.rs", "/w/z.rs"]);
    assert_eq!(
        render_simple_map("/w", &files, 2),
        vec![
            "src\t2",
            "src/a.rs\t1",
            "src/sub\t1",
            "src-gen\t1",
            "src-gen/c.rs\t1",
            "z.rs\t1",
        ]
    );
    assert_eq!(
        render_simple_map("/w", &files, 1),
        vec!["src\t2", "src-gen\t1", "z.rs\t1"]
    );
    assert!(render_simple_map("/w", &files, 0).is_empty());
}

#[test]
fn how_often_names_occur() {
    let counts = tally(&strings(&["b", "a", "b", "ab"]));
    let shown: Vec<(&str, usize)> = counts.iter().map(|t| (t.name.as_str(), t.count)).collect();
    assert_eq!(shown, vec![("a", 1), ("ab", 1), ("b", 2)]);
}

#[test]
fn the_languages_of_a_workspace() {
    let langs = vec![Lang::TypeScript, Lang::Rust, Lang::Rust];
    assert_eq!(
        show(&overview_json(&langs, &Vec::new(), 7)),
        "{\"languages\":[[\"rust\",2],[\"typescript\",1]],\"top_symbols_limit\":7,\"top_symbols\":[]}"
    );
    assert_eq!(
        show(&overview_json(&Vec::new(), &strings(&["b", "new", "a", "new", "z"]), 2)),
        "{\"languages\":[],\"top_symbols_limit\":2,\"top_symbols\":[[\"new\",2],[\"a\",1]]}"
    );
}

fn location(path: &str) -> SymbolLocation {
    SymbolLocation {
        path: path.to_string(),
        line: 1,
        end_line: 2,
        kind: Json::text("function"),
        weight: Json::Whole(9),
    }
}

#[test]
fn places_of_definitions() {
    let shown = |path: &str| {
        format!(
            "{{\"path\":\"{}\",\"line\":1,\"end_line\":2,\"kind\":\"function\",\"weight\":9}}",
            path
        )
    };
    assert_eq!(
        show(&symbols_json(vec![location("a"), location("b"), location("c")], 2)),
        format!("[{},{}]", shown("a"), shown("b"))
    );
    assert_eq!(
        show(&refs_json(vec![location("a")], &vec![])),
        format!("{{\"definitions\":[{}],\"usages\":[]}}", shown("a"))
    );
    let body = vec![
        FlowDefinition {
            path: "a".to_string(),
            line: 2,
            end_line: 3,
            content: Some("x\ny\nz\n".to_string()),
            callees: vec![CalleeHit {
                name: "other".to_string(),
                line: 3,
            }],
            callers: vec![LineHit {
                path: "c".to_string(),
                line: 9,
                text: "y()".to_string(),
            }],
        },
        FlowDefinition {
            path: "b".to_string(),
            line: 1,
            end_line: 1,
            content: None,
            callees: Vec::new(),
            callers: Vec::new(),
        },
    ];
    assert_eq!(
        show(&flow_json(&body, 1)),
        "[{\"path\":\"a\",\"line\":2,\"end_line\":3,\"body\":\"y\\nz\",\
\"callees\":[{\"name\":\"other\",\"line\":3}],\
\"callers\":[{\"path\":\"c\",\"line\":9,\"text\":\"y()\"}]}]"
    );
}

#[test]
fn what_queries_turn_out_to_be() {
    assert_eq!(
        show(&dispatch_json(Dispatched::ContentFallback)),
        "{\"kind\":\"content_fallback\"}"
    );
    assert_eq!(
        show(&dispatch_json(Dispatched::Glob("*.rs".to_string()))),
        "{\"kind\":\"glob\",\"pattern\":\"*.rs\"}"
    );
    assert_eq!(
        show(&dispatch_json(Dispatched::FilePath("a".to_string()))),
        "{\"kind\":\"file_path\",\"path\":\"a\"}"
    );
    assert_eq!(
        show(&dispatch_json(Dispatched::Symbol(vec![]))),
        "{\"kind\":\"symbol\",\"hits\":[]}"
    );
    assert_eq!(
        show(&dispatch_json(Dispatched::SymbolGlob(vec![(
            "n".to_string(),
            location("a")
        )]))),
        "{\"kind\":\"symbol_glob\",\"hits\":[{\"name\":\"n\",\"path\":\"a\",\"line\":1,\"end_line\":2,\"kind\":\"function\",\"weight\":9}]}"
    );
}

#[test]
fn exact_paths_come_before_fuzzy_ones() {
    let exact = vec![Json::text("a"), Json::text("b")];
    let fuzzy = || vec![Json::text("c"), Json::text("d")];
    assert_eq!(show(&find_json(exact, fuzzy(), 1)), "[\"a\"]");
    assert_eq!(show(&find_json(vec![], fuzzy(), 5)), "[\"c\",\"d\"]");
}
