use ffs_cli::grouped::build_grouped_result;
use ffs_cli::grouped::render_groups;
use ffs_cli::hits::GrepHit;
use ffs_cli::outline::find_block_end;
use ffs_cli::outline::get_simple_outline;
use ffs_cli::outline::parse_after_keyword;

fn hit(path: &str, line: u32, text: &str) -> GrepHit {
    GrepHit {
        path: path.to_string(),
        line,
        text: text.to_string(),
        match_ranges: Vec::new(),
        context_before: Vec::new(),
        context_after: Vec::new(),
    }
}

const RUST: &str = "struct Point {\n    x: u8,\n}\n\nimpl Point {\n    pub fn new(x: u8) -> Point {\n        Point { x }\n    }\n}\n";

fn outline(text: &str) -> Vec<(String, String, usize, usize)> {
    get_simple_outline(text)
        .into_iter()
        .map(|e| (e.kind, e.name, e.start_line, e.end_line))
        .collect()
}

fn entry(kind: &str, name: &str, from: usize, to: usize) -> (String, String, usize, usize) {
    (kind.to_string(), name.to_string(), from, to)
}

#[test]
fn the_outline_of_rust() {
    assert_eq!(
        outline(RUST),
        vec![
            entry("struct", "Point", 1, 3),
            entry("impl", "Point", 5, 9),
            entry("function", "new", 6, 8),
        ]
    );
}

#[test]
fn the_names_of_impl_blocks() {
    assert_eq!(
        outline("struct Row;\nfn a() {}\nimpl Row {\n}\nimpl<T> List<T> {}\n"),
        vec![
            entry("struct", "Row;", 1, 2),
            entry("function", "a", 2, 2),
            entry("impl", "Row", 3, 4),
        ]
    );
    assert_eq!(
        outline("struct Flow {}\nimpl Flow {\n    fn go() {}\n}\n"),
        vec![
            entry("struct", "Flow", 1, 1),
            entry("impl", "Flow", 2, 4),
            entry("function", "go", 3, 3),
        ]
    );
    assert_eq!(
        outline("struct A {}\nfn b() {}\nimpl Nowhere where {}\nimpl A,where {}\nimpl A\twhere {}\n")[2..],
        [
            entry("impl", "Nowhere", 3, 3),
            entry("impl", "A,", 4, 4),
            entry("impl", "A", 5, 5),
        ]
    );
}

#[test]
fn definitions_of_one_name_have_groups_of_their_own() {
    let text = "struct A {}\nimpl A {\n    fn go() {\n        x\n    }\n}\nimpl A {\n    x\n}\n";
    let hits = vec![hit("a.rs", 4, "x"), hit("a.rs", 8, "x"), hit("a.rs", 3, "x")];
    let r = build_grouped_result("x", &hits, "literal", &vec![Some(text.to_string())]);
    let shown: Vec<(String, u32, u32, Vec<u32>)> = r.files[0]
        .groups
        .iter()
        .map(|g| {
            let lines = g.matches.iter().map(|m| m.line).collect();
            (g.name.clone(), g.start_line, g.end_line, lines)
        })
        .collect();
    assert_eq!(
        shown,
        vec![
            ("A".to_string(), 2, 6, vec![4, 3]),
            ("A".to_string(), 7, 9, vec![8]),
        ]
    );
}

#[test]
fn the_outline_of_typescript() {
    let text = "import x from 'y';\nexport function go() {\n  return 1;\n}\nclass A {\n}\ninterface B {\n";
    assert_eq!(
        outline(text),
        vec![
            entry("function", "go", 2, 4),
            entry("class", "A", 5, 6),
            entry("interface", "B", 7, 8),
        ]
    );
}

#[test]
fn the_outline_of_anything_else() {
    assert_eq!(
        outline("  def run(self):\n    pass\nfunc main() {\n"),
        vec![
            entry("definition", "run", 1, 6),
            entry("definition", "main", 3, 8),
        ]
    );
    assert!(outline("").is_empty());
}

#[test]
fn names_behind_keywords() {
    assert_eq!(parse_after_keyword("fn main() {", "fn "), Some("main".to_string()));
    assert_eq!(
        parse_after_keyword("pub(crate) fn a<T>()", "fn "),
        Some("a".to_string())
    );
    assert_eq!(parse_after_keyword("pub fn b:", "fn "), Some("b".to_string()));
    assert_eq!(parse_after_keyword("pub pub fn b", "fn "), None);
    assert_eq!(parse_after_keyword("fn (", "fn "), None);
    assert_eq!(parse_after_keyword("let fn x", "fn "), None);
}

#[test]
fn where_blocks_end() {
    let lines = |t: &str| -> Vec<String> { t.lines().map(|l| l.to_string()).collect() };
    assert_eq!(find_block_end(&lines("a {\n b { }\n}\n}\n"), 10), 12);
    assert_eq!(find_block_end(&lines("a;\nb;\n"), 1), 3);
    assert_eq!(find_block_end(&lines("{ }"), 4), 4);
    assert_eq!(find_block_end(&lines("}\n{"), 1), 2);
}

#[test]
fn matches_by_file_and_definition() {
    let hits = vec![
        hit("b.rs", 2, "    x: u8,"),
        hit("b.rs", 7, "        Point { x }"),
        hit("a.rs", 1, "x"),
        hit("b.rs", 4, "x"),
        hit("b.rs", 6, "x: u8"),
    ];
    let r = build_grouped_result("x", &hits, "literal", &vec![None, Some(RUST.to_string())]);
    assert_eq!(r.needle, "x");
    assert_eq!(r.total_files, 2);
    assert_eq!(r.total_matches, 5);
    assert_eq!(r.schema, "v2_grouped");
    assert_eq!(r.files[0].path, "a.rs");
    assert_eq!(r.files[0].total_symbols, 0);
    assert_eq!(r.files[0].groups.len(), 1);
    assert_eq!(r.files[0].groups[0].name, "<file scope>");
    let b = &r.files[1];
    assert_eq!(b.total_matches, 4);
    assert_eq!(b.total_symbols, 3);
    assert_eq!(b.groups.len(), 3);
    assert_eq!(b.groups[0].kind, "struct");
    assert_eq!(b.groups[1].kind, "impl");
    assert_eq!(b.groups[1].matches.len(), 2);
    assert_eq!(b.groups[1].matches[1].line, 6);
    assert_eq!(b.groups[2].kind, "file");
    assert_eq!(
        render_groups(&r, 9),
        "a.rs (1 matches, 0 symbols)\n  file <file scope> @ L0-L0\n    - L1 x\n\n\
b.rs (4 matches, 3 symbols)\n  struct Point @ L1-L3\n    - L2     x: u8,\n  impl Point @ L5-L9\n    - L7         Point { x }\n    - L6 x: u8\n  file <file scope> @ L0-L0\n    - L4 x\n\n"
    );
}

#[test]
fn no_groups() {
    let r = build_grouped_result("x", &vec![], "regex", &vec![]);
    assert_eq!(r.mode, "regex");
    assert_eq!(render_groups(&r, 3), "[no matches across 3 files]\n");
}
