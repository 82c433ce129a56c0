use ffs_cli::calls::failure;
use ffs_cli::calls::get_limit;
use ffs_cli::calls::get_query;
use ffs_cli::calls::get_string;
use ffs_cli::calls::handle_method;
use ffs_cli::calls::handle_tool;
use ffs_cli::calls::initialize_json;
use ffs_cli::calls::list_tools_json;
use ffs_cli::calls::on_line;
use ffs_cli::calls::text_json;
use ffs_cli::calls::Ask;
use ffs_cli::calls::CallError;
use ffs_cli::calls::LineStep;
use ffs_cli::calls::McpState;
use ffs_cli::calls::Request;
use ffs_cli::commands::mcp::parse_target;
use ffs_cli::commands::mcp::parse_workspace_folder_paths;
use ffs_cli::commands::mcp::resolve_default_root;
use ffs_cli::commands::mcp::Args;
use ffs_cli::commands::mcp::Folder;
use ffs_cli::json::Json;
use ffs_cli::tools::tool_kind;
use ffs_cli::tools::tool_name;
use ffs_cli::tools::tools_list;
use ffs_cli::tools::ToolKind;

fn object(fields: Vec<(&str, Json)>) -> Json {
    Json::object(
        fields
            .into_iter()
            .map(|(name, value)| (name.to_string(), value))
            .collect(),
    )
}

fn on(key: &str, value: &str) -> Json {
    object(vec![(key, Json::text(value))])
}

fn as_list(j: &Json) -> &Vec<Json> {
    match j {
        Json::List(items) => items,
        other => panic!("{:?}", other),
    }
}

fn split_target(s: &str) -> (String, Option<u32>) {
    parse_target(s)
}

fn plain(s: &str) -> (String, Option<u32>) {
    (s.to_string(), None)
}

#[test]
fn parse_workspace_folder_paths_single() {
    let paths = parse_workspace_folder_paths("/Users/me/project");
    assert_eq!(paths, vec!["/Users/me/project"]);
}

#[test]
fn parse_workspace_folder_paths_windows_multi() {
    let paths = parse_workspace_folder_paths(r"C:\a;C:\b");
    assert_eq!(paths, vec![r"C:\a", r"C:\b"]);
}

#[test]
fn parse_workspace_folder_paths_trims_and_skips_empty() {
    let paths = parse_workspace_folder_paths("  \"/a\" ;  ; '/b' \n");
    assert_eq!(paths, vec!["/a", "/b"]);
}

#[test]
fn parse_workspace_folder_paths_keeps_windows_drive() {
    let paths = parse_workspace_folder_paths(r"C:\Users\ADMIN\project");
    assert_eq!(paths, vec![r"C:\Users\ADMIN\project"]);
}

#[test]
fn tools_list_includes_object_input_schemas() {
    let ask = handle_method("/w", "tools/list", &Json::Null).expect("the method is known");
    assert!(matches!(ask, Ask::ListTools));
    let result = list_tools_json();
    let tools = as_list(result.get("tools").expect("tools"));
    assert_eq!(tools.len(), 17);
    for tool in tools {
        let schema = tool.get("inputSchema").expect("a schema");
        assert_eq!(schema.get_text("type").expect("a type"), "object");
        assert!(matches!(schema.get("properties"), Some(Json::Object(_))));
        assert!(matches!(schema.get("required"), Some(Json::List(_))));
        assert!(matches!(
            schema.get("additionalProperties"),
            Some(Json::Bool(false))
        ));
    }
    let first = &tools[0];
    assert_eq!(first.get_text("name").expect("a name"), "ffs_grep");
    let schema = first.get("inputSchema").expect("a schema");
    let required = as_list(schema.get("required").expect("required"));
    assert_eq!(required.len(), 1);
    assert!(matches!(&required[0], Json::Text(t) if t == "query"));
    let limit = schema
        .get("properties")
        .expect("properties")
        .get("maxResults")
        .expect("maxResults");
    assert_eq!(limit.get_text("type").expect("a type"), "integer");
    assert_eq!(limit.get_whole("minimum"), Some(1));
}

#[test]
fn advertised_file_tools_are_callable() {
    for (name, args, kind) in [
        ("ffs_find", on("query", "mcp.rs"), ToolKind::Find),
        ("ffs_glob", on("pattern", "*.rs"), ToolKind::Glob),
        ("ffs_grep", on("query", "mcp_schema"), ToolKind::Grep),
        ("ffs_read", on("path", "mcp.rs"), ToolKind::Read),
    ] {
        let call = handle_tool("/w", name, &args).expect(name);
        assert_eq!(call.kind, kind);
    }
    let answer = text_json("body");
    let content = as_list(answer.get("content").expect("content"));
    assert_eq!(content[0].get_text("text").expect("a text"), "body");
    assert_eq!(content[0].get_text("type").expect("a type"), "text");
}

#[test]
fn find_accepts_needle_alias_for_query() {
    let call = handle_tool("/w", "ffs_find", &on("needle", "mcp")).expect("a call");
    assert_eq!(call.subject, "mcp");
    assert_eq!(call.limit, 50);
    let both = object(vec![
        ("needle", Json::text("n")),
        ("query", Json::text("q")),
    ]);
    assert_eq!(get_query(&both).expect("a query"), "q");
    let other = object(vec![("needle", Json::text("n")), ("query", Json::Null)]);
    assert_eq!(get_query(&other).expect("a query"), "n");
}

#[test]
fn missing_tool_errors_clearly() {
    let err = handle_tool("/w", "ffs_unknown", &Json::Null).expect_err("no such tool");
    assert!(err.message().contains("unknown tool"));
    assert_eq!(err.message(), "unknown tool: ffs_unknown");
}

#[test]
fn initialize_does_not_index_workspace() {
    let mut state = McpState::new();
    let ask = handle_method("/w", "initialize", &Json::Null).expect("the method is known");
    assert!(matches!(ask, Ask::Initialize));
    assert!(!state.index_before(&ask));
    assert!(!state.is_indexed());
    let info = initialize_json("1.0");
    assert_eq!(
        info.get("serverInfo")
            .expect("info")
            .get_text("name")
            .expect("a name"),
        "ffs"
    );
    assert_eq!(
        info.get_text("protocolVersion").expect("a version"),
        "2024-11-05"
    );
}

#[test]
fn symbol_tool_indexes_lazily() {
    let mut state = McpState::new();
    let params = object(vec![
        ("name", Json::text("ffs_symbol")),
        ("arguments", on("name", "mcp_schema")),
    ]);
    let ask = handle_method("/w", "tools/call", &params).expect("a call");
    assert!(state.index_before(&ask));
    assert!(state.is_indexed());
    assert!(!state.index_before(&ask));
    assert!(state.is_indexed());
    match ask {
        Ask::Call(call) => {
            assert_eq!(call.kind, ToolKind::Symbol);
            assert_eq!(call.subject, "mcp_schema");
        }
        other => panic!("{:?}", other),
    }
}

#[test]
fn read_accepts_path_line_span() {
    let call = handle_tool("/w", "ffs_read", &on("path", "main.rs:2")).expect("a call");
    assert_eq!((call.path.as_str(), call.line), ("/w/main.rs", Some(2)));
    let call = handle_tool("/w", "ffs_read", &on("path", "main.rs")).expect("a call");
    assert_eq!((call.path.as_str(), call.line), ("/w/main.rs", None));
    let call = handle_tool("/w", "ffs_read", &on("path", "/x/main.rs:1")).expect("a call");
    assert_eq!((call.path.as_str(), call.line), ("/x/main.rs", Some(1)));
    let call = handle_tool("/w", "ffs_outline", &on("path", "main.rs:2")).expect("a call");
    assert_eq!((call.path.as_str(), call.line), ("/w/main.rs:2", None));
}

#[test]
fn parse_target_splits_line_suffix() {
    assert_eq!(split_target("main.rs:7"), ("main.rs".to_string(), Some(7)));
    assert_eq!(
        split_target("src/main.rs:1"),
        ("src/main.rs".to_string(), Some(1))
    );
    assert_eq!(split_target("main.rs"), plain("main.rs"));
    assert_eq!(split_target("main.rs:0"), plain("main.rs:0"));
    assert_eq!(split_target("main.rs:abc"), plain("main.rs:abc"));
    assert_eq!(split_target("a/b.rs:3:x"), plain("a/b.rs:3:x"));
    assert_eq!(split_target(r"C:\dir\file.rs"), plain(r"C:\dir\file.rs"));
}

#[test]
fn lines_of_a_target_fit_in_a_number() {
    assert_eq!(
        split_target("a:4294967295"),
        ("a".to_string(), Some(u32::MAX))
    );
    assert_eq!(split_target("a:4294967296"), plain("a:4294967296"));
    assert_eq!(split_target("a:+5"), ("a".to_string(), Some(5)));
    assert_eq!(split_target("a:007"), ("a".to_string(), Some(7)));
    assert_eq!(split_target("a:-5"), plain("a:-5"));
    assert_eq!(split_target("a:"), plain("a:"));
    assert_eq!(split_target("a:+"), plain("a:+"));
    assert_eq!(split_target(":3"), ("".to_string(), Some(3)));
}

#[test]
fn each_tool_is_known_by_its_name() {
    for tool in tools_list() {
        let kind = tool_kind(tool.name).expect(tool.name);
        assert_eq!(tool_name(kind), tool.name);
        for name in &tool.required {
            assert!(tool.properties.iter().any(|p| p.name == *name));
        }
    }
    assert!(tool_kind("grep").is_none());
}

#[test]
fn what_calls_lack() {
    let missing = |name: &str| {
        handle_tool("/w", name, &Json::Null)
            .expect_err("an argument is missing")
            .message()
    };
    assert_eq!(missing("ffs_grep"), "missing query");
    assert_eq!(missing("ffs_find"), "missing query");
    assert_eq!(missing("ffs_dispatch"), "missing query");
    assert_eq!(missing("ffs_multi_grep"), "missing queries or patterns");
    assert_eq!(missing("ffs_glob"), "missing pattern");
    assert_eq!(missing("ffs_read"), "missing path");
    assert_eq!(missing("ffs_deps"), "missing path");
    assert_eq!(missing("ffs_callers"), "missing name");
    assert!(handle_tool("/w", "ffs_map", &Json::Null).is_ok());
    assert!(matches!(
        get_string(&on("path", "x"), "name"),
        Err(CallError::Missing("name"))
    ));
    assert_eq!(get_string(&on("path", "x"), "path").expect("a path"), "x");
    let err = handle_method("/w", "tools/call", &Json::Null).expect_err("no name");
    assert_eq!(err.message(), "missing tool name");
    let err = handle_method("/w", "tools/run", &Json::Null).expect_err("no such method");
    assert_eq!(err.message(), "unknown method: tools/run");
    let refused = failure(&CallError::Failed("read x: gone".to_string()));
    assert_eq!((refused.code, refused.message.as_str()), (-32000, "read x: gone"));
}

#[test]
fn limits_of_calls() {
    let with = |key: &str, value: Json| get_limit(&object(vec![(key, value)]), 20);
    assert_eq!(get_limit(&Json::Null, 20), 20);
    assert_eq!(get_limit(&Json::Null, 0), 1);
    assert_eq!(with("maxResults", Json::Whole(3)), 3);
    assert_eq!(with("maxResults", Json::Whole(0)), 20);
    assert_eq!(with("maxResults", Json::Rounded(3)), 3);
    assert_eq!(with("maxResults", Json::Negative(-4)), 20);
    assert_eq!(with("maxResults", Json::text("3")), 20);
    assert_eq!(with("limit", Json::Whole(4)), 4);
    assert_eq!(with("limit", Json::Rounded(4)), 20);
    let both = object(vec![
        ("limit", Json::Whole(4)),
        ("maxResults", Json::Whole(0)),
    ]);
    assert_eq!(get_limit(&both, 20), 20);
    let depth = |value: Json| {
        handle_tool("/w", "ffs_map", &object(vec![("depth", value)]))
            .expect("a call")
            .limit
    };
    assert_eq!(depth(Json::Whole(7)), 7);
    assert_eq!(depth(Json::Whole(11)), 10);
    assert_eq!(depth(Json::Whole(0)), 0);
    assert_eq!(depth(Json::Null), 2);
}

#[test]
fn patterns_of_a_multi_search() {
    let list = || {
        Json::list(vec![
            Json::text("a"),
            Json::Whole(1),
            Json::text("b"),
        ])
    };
    let call = handle_tool("/w", "ffs_multi_grep", &object(vec![("patterns", list())]))
        .expect("a call");
    assert_eq!(call.needles, vec!["a", "b"]);
    assert_eq!(call.limit, 20);
    let args = object(vec![("queries", Json::Null), ("patterns", list())]);
    assert!(handle_tool("/w", "ffs_multi_grep", &args).is_err());
    let args = object(vec![("queries", Json::list(vec![]))]);
    assert!(handle_tool("/w", "ffs_multi_grep", &args)
        .expect("a call")
        .needles
        .is_empty());
}

fn request(has_id: bool, method: &str) -> Result<Request, String> {
    Ok(Request {
        has_id,
        method: method.to_string(),
        params: Json::Null,
    })
}

#[test]
fn what_is_done_with_lines() {
    assert!(matches!(
        on_line("/w", " \t", &Err("EOF".to_string())),
        LineStep::Ignore
    ));
    match on_line("/w", "{", &Err("EOF".to_string())) {
        LineStep::Unreadable(f) => {
            assert_eq!((f.code, f.message.as_str()), (-32700, "parse error: EOF"));
        }
        other => panic!("{:?}", other),
    }
    assert!(matches!(
        on_line("/w", "{}", &request(false, "initialize")),
        LineStep::Ignore
    ));
    assert!(matches!(
        on_line("/w", "{}", &request(false, "nothing/known")),
        LineStep::Ignore
    ));
    assert!(matches!(
        on_line("/w", "{}", &request(true, "initialize")),
        LineStep::Perform(Ask::Initialize)
    ));
    assert!(matches!(
        on_line("/w", "{}", &request(true, "notifications/initialized")),
        LineStep::Perform(Ask::Nothing)
    ));
    match on_line("/w", "{}", &request(true, "nothing/known")) {
        LineStep::Refuse(f) => {
            assert_eq!(
                (f.code, f.message.as_str()),
                (-32000, "unknown method: nothing/known")
            );
        }
        other => panic!("{:?}", other),
    }
}

fn folder(path: &str, is_dir: bool) -> Folder {
    Folder {
        path: path.to_string(),
        is_dir,
    }
}

#[test]
fn the_workspace_where_none_is_given() {
    let here = Some("/here".to_string());
    let folders = vec![folder("/gone", false), folder("/a", true), folder("/b", true)];
    assert_eq!(
        resolve_default_root(&folders, &Some(folder("/code", true)), &here),
        "/a"
    );
    let none = vec![folder("/gone", false)];
    assert_eq!(
        resolve_default_root(&none, &Some(folder("/code", true)), &here),
        "/code"
    );
    assert_eq!(
        resolve_default_root(&none, &Some(folder("/code", false)), &here),
        "/here"
    );
    assert_eq!(resolve_default_root(&vec![], &None, &None), ".");
    let args = Args {
        budget: None,
        path: None,
    };
    assert_eq!(args.token_budget(), 25_000);
}
