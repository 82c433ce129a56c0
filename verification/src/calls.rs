//! What a message asks the server to do, and how it is answered.

use vstd::prelude::*;
use vstd::string::StringExecFns;

use crate::commands::mcp::law_target_round_trip;
use crate::commands::mcp::law_target_without_line;
use crate::commands::mcp::parse_target;
use crate::commands::mcp::target_of;
use crate::json::Json;
use crate::json::JsonView;
use crate::json::collect_texts;
use crate::json::field_views;
use crate::json::find_field;
use crate::json::json_views;
use crate::json::lemma_views;
use crate::json::texts_in;
use crate::paths::join;
use crate::paths::joined;
use crate::text::decimal;
use crate::text::texts;
use crate::text::trim;
use crate::text::trimmed;
use crate::tools::ToolKind;
use crate::tools::ToolView;
use crate::tools::field;
use crate::tools::kind_of;
use crate::tools::law_tool_names;
use crate::tools::name_of;
use crate::tools::required_of;
use crate::tools::tool_as_json;
use crate::tools::tool_kind;
use crate::tools::tool_table;
use crate::tools::tools_json;

verus! {

/// Why a message cannot be answered as asked.
#[derive(Debug)]
pub enum CallError {
    /// A tool call does not say which tool.
    MissingToolName,
    /// There is no such method.
    UnknownMethod(String),
    /// There is no such tool.
    UnknownTool(String),
    /// The arguments lack a property.
    Missing(&'static str),
    /// The tool failed.
    Failed(String),
}

/// What an error says.
#[verifier::ext_equal]
pub enum ErrorView {
    MissingToolName,
    UnknownMethod(Seq<char>),
    UnknownTool(Seq<char>),
    Missing(Seq<char>),
    Failed(Seq<char>),
}

impl View for CallError {
    type V = ErrorView;

    open spec fn view(&self) -> ErrorView {
        match self {
            CallError::MissingToolName => ErrorView::MissingToolName,
            CallError::UnknownMethod(name) => ErrorView::UnknownMethod(name@),
            CallError::UnknownTool(name) => ErrorView::UnknownTool(name@),
            CallError::Missing(what) => ErrorView::Missing(what@),
            CallError::Failed(why) => ErrorView::Failed(why@),
        }
    }
}

/// The message of an error.
pub open spec fn error_text(e: ErrorView) -> Seq<char> {
    match e {
        ErrorView::MissingToolName => "missing tool name"@,
        ErrorView::UnknownMethod(name) => "unknown method: "@ + name,
        ErrorView::UnknownTool(name) => "unknown tool: "@ + name,
        ErrorView::Missing(what) => "missing "@ + what,
        ErrorView::Failed(why) => why,
    }
}

impl CallError {
    /// The message.
    pub fn message(&self) -> (res: String)
        ensures
            res@ == error_text(self@),
    {
        match self {
            CallError::MissingToolName => String::from_str("missing tool name"),
            CallError::UnknownMethod(name) => String::from_str("unknown method: ").concat(
                name.as_str(),
            ),
            CallError::UnknownTool(name) => String::from_str("unknown tool: ").concat(
                name.as_str(),
            ),
            CallError::Missing(what) => String::from_str("missing ").concat(what),
            CallError::Failed(why) => why.clone(),
        }
    }
}

/// The text of a property.
pub fn get_string<'a>(args: &'a Json, key: &'static str) -> (res: Result<&'a String, CallError>)
    ensures
        match res {
            Ok(s) => args@.field_text(key@) == Some(s@),
            Err(e) => args@.field_text(key@) is None && e@ == ErrorView::Missing(key@),
        },
{
    match args.get_text(key) {
        Some(s) => Ok(s),
        None => Err(CallError::Missing(key)),
    }
}

/// The query of a call: the property `query`, or else `needle`.
pub open spec fn query_of(args: JsonView) -> Option<Seq<char>> {
    match args.field_text("query"@) {
        Some(s) => Some(s),
        None => args.field_text("needle"@),
    }
}

/// The query of a call: the property `query`, or else `needle`.
pub fn get_query(args: &Json) -> (res: Result<&String, CallError>)
    ensures
        match res {
            Ok(s) => query_of(args@) == Some(s@),
            Err(e) => query_of(args@) is None && e@ == ErrorView::Missing("query"@),
        },
{
    match args.get_text("query") {
        Some(s) => Ok(s),
        None => match args.get_text("needle") {
            Some(s) => Ok(s),
            None => Err(CallError::Missing("query")),
        },
    }
}

/// How many results a call asks for: the number `maxResults`, rounded, or else
/// the whole number `limit`; the default where that is missing or zero, and one
/// at least.
pub open spec fn limit_for(args: JsonView, default: usize) -> usize {
    let asked = match args.field_rounded("maxResults"@) {
        Some(n) => Some(n),
        None => args.field_whole("limit"@),
    };
    match asked {
        Some(n) if n as usize > 0 => n as usize,
        _ => if default > 0 {
            default
        } else {
            1
        },
    }
}

/// How many results a call asks for.
pub fn get_limit(args: &Json, default: usize) -> (res: usize)
    ensures
        res == limit_for(args@, default),
        res > 0,
{
    let asked = match args.get_rounded("maxResults") {
        Some(n) => Some(n),
        None => args.get_whole("limit"),
    };
    let n = match asked {
        Some(n) => n as usize,
        None => 0,
    };
    if n > 0 {
        n
    } else if default > 0 {
        default
    } else {
        1
    }
}

/// A call of a tool.
#[derive(Debug)]
pub struct ToolCall {
    /// The tool.
    pub kind: ToolKind,
    /// What it is called on: a query, a pattern, a name or a path.
    pub subject: String,
    /// The path of the file that it is called on, if there is one.
    pub path: String,
    /// The line that it is called on, if there is one.
    pub line: Option<u32>,
    /// How many results it returns, or how deep it goes.
    pub limit: usize,
    /// How many results it leaves out before the first one that it returns.
    pub offset: usize,
    /// How many tokens the answer may have, if the call says.
    pub max_tokens: Option<u64>,
    /// The patterns that it is called on.
    pub needles: Vec<String>,
}

/// What a call says.
#[verifier::ext_equal]
pub struct CallView {
    pub kind: ToolKind,
    pub subject: Seq<char>,
    pub path: Seq<char>,
    pub line: Option<u32>,
    pub limit: usize,
    pub offset: usize,
    pub max_tokens: Option<u64>,
    pub needles: Seq<Seq<char>>,
}

impl View for ToolCall {
    type V = CallView;

    open spec fn view(&self) -> CallView {
        CallView {
            kind: self.kind,
            subject: self.subject@,
            path: self.path@,
            line: self.line,
            limit: self.limit,
            offset: self.offset,
            max_tokens: self.max_tokens,
            needles: texts(self.needles@),
        }
    }
}

/// The tool works on the symbols of the workspace, so they have to be indexed.
pub open spec fn needs_symbols(kind: ToolKind) -> bool {
    match kind {
        ToolKind::Dispatch | ToolKind::Symbol | ToolKind::Callers | ToolKind::Callees
        | ToolKind::Refs | ToolKind::Flow | ToolKind::Siblings | ToolKind::Impact
        | ToolKind::Overview => true,
        _ => false,
    }
}

/// The tool is called on a file.
pub open spec fn on_file(kind: ToolKind) -> bool {
    match kind {
        ToolKind::Read | ToolKind::Outline | ToolKind::Deps => true,
        _ => false,
    }
}

/// The property with what a tool is called on.
pub open spec fn subject_key(kind: ToolKind) -> Seq<char> {
    match kind {
        ToolKind::Grep | ToolKind::Find | ToolKind::Dispatch => "query"@,
        ToolKind::Glob => "pattern"@,
        ToolKind::Read | ToolKind::Outline | ToolKind::Deps => "path"@,
        _ => "name"@,
    }
}

/// The patterns of a call: the list `queries`, or else `patterns`.
pub open spec fn needles_of(args: JsonView) -> Option<Seq<Seq<char>>> {
    let list = match args.field("queries"@) {
        Some(v) => Some(v),
        None => args.field("patterns"@),
    };
    match list {
        Some(JsonView::List(items)) => Some(texts_in(items)),
        _ => None,
    }
}

/// What a tool is called on, if the arguments say.
pub open spec fn subject_of(kind: ToolKind, args: JsonView) -> Option<Seq<char>> {
    match kind {
        ToolKind::MultiGrep | ToolKind::FileMap | ToolKind::Overview => Some(seq![]),
        ToolKind::Grep | ToolKind::Find | ToolKind::Dispatch => query_of(args),
        _ => args.field_text(subject_key(kind)),
    }
}

/// How many results a tool returns where the call does not say.
pub open spec fn default_limit(kind: ToolKind) -> usize {
    match kind {
        ToolKind::Grep | ToolKind::MultiGrep | ToolKind::Overview => 20,
        ToolKind::Flow => 5,
        _ => 50,
    }
}

/// How deep a map goes: as asked, two levels where nothing is, ten at most.
pub open spec fn depth_for(args: JsonView) -> usize {
    match args.field_whole("depth"@) {
        Some(n) => if n <= 10 {
            n as usize
        } else {
            10
        },
        None => 2,
    }
}

/// How many results a call leaves out before its page: the whole number
/// `offset`, for the tools that have pages.
pub open spec fn offset_for(kind: ToolKind, args: JsonView) -> usize {
    match kind {
        ToolKind::Grep | ToolKind::Glob => match args.field_whole("offset"@) {
            Some(n) => if n <= usize::MAX {
                n as usize
            } else {
                usize::MAX
            },
            None => 0,
        },
        _ => 0,
    }
}

/// How many tokens the answer of a read may have: the whole number `maxTokens`,
/// if it is given and not zero.
pub open spec fn tokens_for(kind: ToolKind, args: JsonView) -> Option<u64> {
    match kind {
        ToolKind::Read => match args.field_whole("maxTokens"@) {
            Some(n) if n > 0 => Some(n),
            _ => None,
        },
        _ => None,
    }
}

/// The call that the arguments make.
pub open spec fn call_for(kind: ToolKind, root: Seq<char>, args: JsonView) -> Result<
    CallView,
    ErrorView,
> {
    if kind == ToolKind::MultiGrep && needles_of(args) is None {
        Err(ErrorView::Missing("queries or patterns"@))
    } else {
        match subject_of(kind, args) {
            None => Err(ErrorView::Missing(subject_key(kind))),
            Some(subject) => {
                let target = if kind == ToolKind::Read {
                    target_of(subject)
                } else {
                    (subject, None)
                };
                Ok(
                    CallView {
                        kind,
                        subject,
                        path: if on_file(kind) {
                            joined(root, target.0)
                        } else {
                            seq![]
                        },
                        line: target.1,
                        limit: if kind == ToolKind::FileMap {
                            depth_for(args)
                        } else {
                            limit_for(args, default_limit(kind))
                        },
                        offset: offset_for(kind, args),
                        max_tokens: tokens_for(kind, args),
                        needles: if kind == ToolKind::MultiGrep {
                            needles_of(args)->0
                        } else {
                            seq![]
                        },
                    },
                )
            },
        }
    }
}

/// The call of the tool with the given name.
pub open spec fn named_call(root: Seq<char>, name: Seq<char>, args: JsonView) -> Result<
    CallView,
    ErrorView,
> {
    match kind_of(name) {
        Some(kind) => call_for(kind, root, args),
        None => Err(ErrorView::UnknownTool(name)),
    }
}

/// Whether the symbols of the workspace have to be indexed.
pub fn is_on_symbols(kind: ToolKind) -> (res: bool)
    ensures
        res == needs_symbols(kind),
{
    match kind {
        ToolKind::Dispatch | ToolKind::Symbol | ToolKind::Callers | ToolKind::Callees
        | ToolKind::Refs | ToolKind::Flow | ToolKind::Siblings | ToolKind::Impact
        | ToolKind::Overview => true,
        _ => false,
    }
}

/// The patterns of a call.
fn get_needles(args: &Json) -> (res: Option<Vec<String>>)
    ensures
        match res {
            Some(v) => needles_of(args@) == Some(texts(v@)),
            None => needles_of(args@) is None,
        },
{
    let list = match args.get("queries") {
        Some(v) => Some(v),
        None => args.get("patterns"),
    };
    match list {
        Some(v) => {
            proof {
                lemma_views(*v);
            }
            match v {
                Json::List(items) => Some(collect_texts(items)),
                _ => None,
            }
        },
        None => None,
    }
}

/// What a tool is called on.
fn get_subject(kind: ToolKind, args: &Json) -> (res: Result<String, CallError>)
    ensures
        match res {
            Ok(s) => subject_of(kind, args@) == Some(s@),
            Err(e) => subject_of(kind, args@) is None && e@ == ErrorView::Missing(
                subject_key(kind),
            ),
        },
{
    let found = match kind {
        ToolKind::MultiGrep | ToolKind::FileMap | ToolKind::Overview => {
            let none = String::new();
            assert(none@ =~= seq![]);
            return Ok(none);
        },
        ToolKind::Grep | ToolKind::Find | ToolKind::Dispatch => get_query(args),
        ToolKind::Glob => get_string(args, "pattern"),
        ToolKind::Read | ToolKind::Outline | ToolKind::Deps => get_string(args, "path"),
        _ => get_string(args, "name"),
    };
    match found {
        Ok(s) => Ok(s.clone()),
        Err(e) => Err(e),
    }
}

/// How many results a call asks for, or how deep it goes.
fn get_extent(kind: ToolKind, args: &Json) -> (res: usize)
    ensures
        res == if kind == ToolKind::FileMap {
            depth_for(args@)
        } else {
            limit_for(args@, default_limit(kind))
        },
{
    match kind {
        ToolKind::FileMap => match args.get_whole("depth") {
            Some(n) => if n <= 10 {
                n as usize
            } else {
                10
            },
            None => 2,
        },
        ToolKind::Grep | ToolKind::MultiGrep | ToolKind::Overview => get_limit(args, 20),
        ToolKind::Flow => get_limit(args, 5),
        _ => get_limit(args, 50),
    }
}

/// How many results a call leaves out before its page.
fn get_offset(kind: ToolKind, args: &Json) -> (res: usize)
    ensures
        res == offset_for(kind, args@),
{
    match kind {
        ToolKind::Grep | ToolKind::Glob => match args.get_whole("offset") {
            Some(n) => if n <= usize::MAX as u64 {
                n as usize
            } else {
                usize::MAX
            },
            None => 0,
        },
        _ => 0,
    }
}

/// How many tokens the answer of a read may have.
fn get_max_tokens(kind: ToolKind, args: &Json) -> (res: Option<u64>)
    ensures
        res == tokens_for(kind, args@),
{
    match kind {
        ToolKind::Read => match args.get_whole("maxTokens") {
            Some(n) => if n > 0 {
                Some(n)
            } else {
                None
            },
            None => None,
        },
        _ => None,
    }
}

/// The call of the tool with the given name. A relative path is one below
/// `root`.
pub fn handle_tool(root: &str, name: &str, args: &Json) -> (res: Result<ToolCall, CallError>)
    ensures
        match res {
            Ok(call) => named_call(root@, name@, args@) == Ok::<CallView, ErrorView>(call@),
            Err(e) => named_call(root@, name@, args@) == Err::<CallView, ErrorView>(e@),
        },
{
    let kind = match tool_kind(name) {
        Some(kind) => kind,
        None => {
            return Err(CallError::UnknownTool(name.to_owned()));
        },
    };
    let needles: Vec<String> = match kind {
        ToolKind::MultiGrep => match get_needles(args) {
            Some(v) => v,
            None => {
                return Err(CallError::Missing("queries or patterns"));
            },
        },
        _ => Vec::new(),
    };
    assert(kind != ToolKind::MultiGrep ==> texts(needles@) =~= seq![]);
    let subject = match get_subject(kind, args) {
        Ok(s) => s,
        Err(e) => {
            return Err(e);
        },
    };
    let (target, line) = match kind {
        ToolKind::Read => parse_target(subject.as_str()),
        _ => (subject.clone(), None),
    };
    let path = match kind {
        ToolKind::Read | ToolKind::Outline | ToolKind::Deps => join(root, target.as_str()),
        _ => String::new(),
    };
    assert(!on_file(kind) ==> path@ =~= seq![]);
    let limit = get_extent(kind, args);
    let offset = get_offset(kind, args);
    let max_tokens = get_max_tokens(kind, args);
    let call = ToolCall { kind, subject, path, line, limit, offset, max_tokens, needles };
    assert(call@ =~= call_for(kind, root@, args@)->Ok_0);
    Ok(call)
}

/// What a message asks for.
#[derive(Debug)]
pub enum Ask {
    /// Nothing.
    Nothing,
    /// Who the server is.
    Initialize,
    /// Which tools there are.
    ListTools,
    /// A call of a tool.
    Call(ToolCall),
}

/// What an ask says.
#[verifier::ext_equal]
pub enum AskView {
    Nothing,
    Initialize,
    ListTools,
    Call(CallView),
}

impl View for Ask {
    type V = AskView;

    open spec fn view(&self) -> AskView {
        match self {
            Ask::Nothing => AskView::Nothing,
            Ask::Initialize => AskView::Initialize,
            Ask::ListTools => AskView::ListTools,
            Ask::Call(call) => AskView::Call(call@),
        }
    }
}

/// The arguments of a tool call.
pub open spec fn arguments_of(params: JsonView) -> JsonView {
    match params.field("arguments"@) {
        Some(v) => v,
        None => JsonView::Null,
    }
}

/// What a method with parameters asks for.
pub open spec fn ask_for(root: Seq<char>, method: Seq<char>, params: JsonView) -> Result<
    AskView,
    ErrorView,
> {
    if method == "notifications/initialized"@ {
        Ok(AskView::Nothing)
    } else if method == "initialize"@ {
        Ok(AskView::Initialize)
    } else if method == "tools/list"@ {
        Ok(AskView::ListTools)
    } else if method == "tools/call"@ {
        match params.field_text("name"@) {
            None => Err(ErrorView::MissingToolName),
            Some(name) => match named_call(root, name, arguments_of(params)) {
                Ok(call) => Ok(AskView::Call(call)),
                Err(e) => Err(e),
            },
        }
    } else {
        Err(ErrorView::UnknownMethod(method))
    }
}

/// What a method with parameters asks for.
pub fn handle_method(root: &str, method: &str, params: &Json) -> (res: Result<Ask, CallError>)
    ensures
        match res {
            Ok(ask) => ask_for(root@, method@, params@) == Ok::<AskView, ErrorView>(ask@),
            Err(e) => ask_for(root@, method@, params@) == Err::<AskView, ErrorView>(e@),
        },
{
    if *method == *"notifications/initialized" {
        Ok(Ask::Nothing)
    } else if *method == *"initialize" {
        Ok(Ask::Initialize)
    } else if *method == *"tools/list" {
        Ok(Ask::ListTools)
    } else if *method == *"tools/call" {
        match params.get_text("name") {
            None => Err(CallError::MissingToolName),
            Some(name) => {
                let called = match params.get("arguments") {
                    Some(arguments) => handle_tool(root, name.as_str(), arguments),
                    None => handle_tool(root, name.as_str(), &Json::Null),
                };
                match called {
                    Ok(call) => Ok(Ask::Call(call)),
                    Err(e) => Err(e),
                }
            },
        }
    } else {
        Err(CallError::UnknownMethod(method.to_owned()))
    }
}

/// Text as the answer of a tool.
pub open spec fn text_answer(text: Seq<char>) -> JsonView {
    JsonView::Object(
        seq![
            (
                "content"@,
                JsonView::List(
                    seq![
                        JsonView::Object(
                            seq![
                                ("type"@, JsonView::Text("text"@)),
                                ("text"@, JsonView::Text(text)),
                            ],
                        ),
                    ],
                ),
            ),
        ],
    )
}

/// Text as the answer of a tool.
pub fn text_json(text: &str) -> (res: Json)
    ensures
        res@ == text_answer(text@),
{
    let item: Vec<(String, Json)> = vec![
        field("type", Json::text("text")),
        field("text", Json::text(text)),
    ];
    assert(field_views(item@) =~= seq![
        ("type"@, JsonView::Text("text"@)),
        ("text"@, JsonView::Text(text@)),
    ]);
    let items: Vec<Json> = vec![Json::object(item)];
    assert(json_views(items@) =~= seq![
        JsonView::Object(
            seq![("type"@, JsonView::Text("text"@)), ("text"@, JsonView::Text(text@))],
        ),
    ]);
    let fields: Vec<(String, Json)> = vec![field("content", Json::list(items))];
    assert(field_views(fields@) =~= text_answer(text@)->Object_0);
    Json::object(fields)
}

/// Who the server is.
pub open spec fn server_info(version: Seq<char>) -> JsonView {
    JsonView::Object(
        seq![
            ("protocolVersion"@, JsonView::Text("2024-11-05"@)),
            (
                "serverInfo"@,
                JsonView::Object(
                    seq![
                        ("name"@, JsonView::Text("ffs"@)),
                        ("version"@, JsonView::Text(version)),
                    ],
                ),
            ),
            (
                "capabilities"@,
                JsonView::Object(seq![("tools"@, JsonView::Object(seq![]))]),
            ),
        ],
    )
}

/// Who the server is.
pub fn initialize_json(version: &str) -> (res: Json)
    ensures
        res@ == server_info(version@),
{
    let info: Vec<(String, Json)> = vec![
        field("name", Json::text("ffs")),
        field("version", Json::text(version)),
    ];
    assert(field_views(info@) =~= seq![
        ("name"@, JsonView::Text("ffs"@)),
        ("version"@, JsonView::Text(version@)),
    ]);
    let none: Vec<(String, Json)> = Vec::new();
    assert(field_views(none@) =~= seq![]);
    let able: Vec<(String, Json)> = vec![field("tools", Json::object(none))];
    assert(field_views(able@) =~= seq![("tools"@, JsonView::Object(seq![]))]);
    let fields: Vec<(String, Json)> = vec![
        field("protocolVersion", Json::text("2024-11-05")),
        field("serverInfo", Json::object(info)),
        field("capabilities", Json::object(able)),
    ];
    assert(field_views(fields@) =~= server_info(version@)->Object_0);
    Json::object(fields)
}

/// Which tools there are.
pub fn list_tools_json() -> (res: Json)
    ensures
        res@ == JsonView::Object(
            seq![
                (
                    "tools"@,
                    JsonView::List(tool_table().map_values(|t: ToolView| tool_as_json(t))),
                ),
            ],
        ),
{
    let fields: Vec<(String, Json)> = vec![field("tools", tools_json())];
    assert(field_views(fields@) =~= seq![
        ("tools"@, JsonView::List(tool_table().map_values(|t: ToolView| tool_as_json(t)))),
    ]);
    Json::object(fields)
}

/// What the server remembers between messages.
#[derive(Debug)]
pub struct McpState {
    indexed: bool,
}

impl McpState {
    /// The workspace has been indexed.
    pub closed spec fn spec_indexed(self) -> bool {
        self.indexed
    }

    /// A server that has indexed nothing.
    pub fn new() -> (res: McpState)
        ensures
            !res.spec_indexed(),
    {
        McpState { indexed: false }
    }

    /// Whether the workspace has been indexed.
    pub fn is_indexed(&self) -> (res: bool)
        ensures
            res == self.spec_indexed(),
    {
        self.indexed
    }

    /// Whether to index the workspace now; from then on it is indexed.
    pub fn ensure_indexed(&mut self) -> (res: bool)
        ensures
            res == !old(self).spec_indexed(),
            final(self).spec_indexed(),
    {
        let now = !self.indexed;
        self.indexed = true;
        now
    }

    /// Whether to index the workspace before doing what is asked: if it works
    /// on symbols, and it is the first time that something does.
    pub fn index_before(&mut self, ask: &Ask) -> (res: bool)
        ensures
            res == (asks_for_symbols(ask@) && !old(self).spec_indexed()),
            final(self).spec_indexed() == (old(self).spec_indexed() || asks_for_symbols(ask@)),
    {
        match ask {
            Ask::Call(call) => if is_on_symbols(call.kind) {
                self.ensure_indexed()
            } else {
                false
            },
            _ => false,
        }
    }
}

/// What is asked for works on the symbols of the workspace.
pub open spec fn asks_for_symbols(ask: AskView) -> bool {
    ask matches AskView::Call(call) && needs_symbols(call.kind)
}

/// Whether the workspace is indexed after a row of asks.
pub open spec fn indexed_after(asks: Seq<AskView>, before: bool) -> bool
    decreases asks.len(),
{
    if asks.len() == 0 {
        before
    } else {
        indexed_after(asks.drop_last(), before) || asks_for_symbols(asks.last())
    }
}

/// The workspace is indexed lazily: not before the first ask that works on its
/// symbols, and from then on it is.
pub proof fn law_indexed_lazily(asks: Seq<AskView>)
    ensures
        indexed_after(asks, false) == exists|i: int|
            0 <= i < asks.len() && asks_for_symbols(#[trigger] asks[i]),
    decreases asks.len(),
{
    if asks.len() > 0 {
        let front = asks.drop_last();
        law_indexed_lazily(front);
        if indexed_after(asks, false) {
            if asks_for_symbols(asks.last()) {
                assert(asks_for_symbols(asks[asks.len() - 1]));
            } else {
                let i = choose|i: int| 0 <= i < front.len() && asks_for_symbols(#[trigger] front[i]);
                assert(asks_for_symbols(asks[i]));
            }
        }
        if exists|i: int| 0 <= i < asks.len() && asks_for_symbols(#[trigger] asks[i]) {
            let i = choose|i: int| 0 <= i < asks.len() && asks_for_symbols(#[trigger] asks[i]);
            if i < front.len() {
                assert(asks_for_symbols(front[i]));
            }
        }
    }
}

/// A failed answer.
#[derive(Debug)]
pub struct Failure {
    /// The number of the error.
    pub code: i64,
    /// The message.
    pub message: String,
}

/// A message, once it has been taken apart.
#[derive(Debug)]
pub struct Request {
    /// Whether the message has an id. One without wants no answer.
    pub has_id: bool,
    /// The method.
    pub method: String,
    /// Its parameters.
    pub params: Json,
}

/// What to do with a line of input.
#[derive(Debug)]
pub enum LineStep {
    /// Nothing: it is blank, or wants no answer.
    Ignore,
    /// Answer that it cannot be read, without an id.
    Unreadable(Failure),
    /// Answer with an error.
    Refuse(Failure),
    /// Do what it asks for, and answer.
    Perform(Ask),
}

/// A message that cannot be read.
pub open spec fn is_unreadable(f: Failure, detail: Seq<char>) -> bool {
    f.code == -32700 && f.message@ == "parse error: "@ + detail
}

/// A message that cannot be answered as asked.
pub open spec fn is_refusal(f: Failure, e: ErrorView) -> bool {
    f.code == -32000 && f.message@ == error_text(e)
}

/// The answer to what failed.
pub fn failure(e: &CallError) -> (res: Failure)
    ensures
        is_refusal(res, e@),
{
    Failure { code: -32000, message: e.message() }
}

/// What to do with a line of input, which was taken apart as a message or
/// could not be.
pub fn on_line(root: &str, line: &str, parsed: &Result<Request, String>) -> (res: LineStep)
    ensures
        match res {
            LineStep::Ignore => {
                ||| trimmed(line@, None).len() == 0
                ||| parsed matches Ok(r) && !r.has_id
            },
            LineStep::Unreadable(f) => {
                &&& trimmed(line@, None).len() > 0
                &&& parsed matches Err(detail)
                &&& is_unreadable(f, detail@)
            },
            LineStep::Refuse(f) => {
                &&& trimmed(line@, None).len() > 0
                &&& parsed matches Ok(r)
                &&& r.has_id
                &&& ask_for(root@, r.method@, r.params@) matches Err(e)
                &&& is_refusal(f, e)
            },
            LineStep::Perform(ask) => {
                &&& trimmed(line@, None).len() > 0
                &&& parsed matches Ok(r)
                &&& r.has_id
                &&& ask_for(root@, r.method@, r.params@) == Ok::<AskView, ErrorView>(ask@)
            },
        },
{
    if trim(line, None).as_str().is_empty() {
        return LineStep::Ignore;
    }
    match parsed {
        Err(detail) => LineStep::Unreadable(
            Failure {
                code: -32700,
                message: String::from_str("parse error: ").concat(detail.as_str()),
            },
        ),
        Ok(r) => {
            if !r.has_id {
                return LineStep::Ignore;
            }
            match handle_method(root, r.method.as_str(), &r.params) {
                Ok(ask) => LineStep::Perform(ask),
                Err(e) => LineStep::Refuse(failure(&e)),
            }
        },
    }
}

/// What a tool is asked about, by the property that holds it: a query, a pattern, a
/// path or a name. A call without it is refused, with that property named. A query
/// may be given as `needle` too, and a search for several texts needs a list.
pub proof fn law_calls_need_their_subject(kind: ToolKind, root: Seq<char>, args: JsonView)
    ensures
        ({
            let call = call_for(kind, root, args);
            let query = match args.field_text("query"@) {
                Some(s) => Some(s),
                None => args.field_text("needle"@),
            };
            &&& kind is Grep || kind is Find || kind is Dispatch ==> match query {
                Some(s) => call matches Ok(c) && c.subject == s,
                None => call == Err::<CallView, ErrorView>(ErrorView::Missing("query"@)),
            }
            &&& kind is Glob ==> match args.field_text("pattern"@) {
                Some(s) => call matches Ok(c) && c.subject == s,
                None => call == Err::<CallView, ErrorView>(ErrorView::Missing("pattern"@)),
            }
            &&& kind is Read || kind is Outline || kind is Deps ==> match args.field_text("path"@) {
                Some(s) => call matches Ok(c) && c.subject == s,
                None => call == Err::<CallView, ErrorView>(ErrorView::Missing("path"@)),
            }
            &&& kind is Symbol || kind is Callers || kind is Callees || kind is Refs || kind is Flow
                || kind is Siblings || kind is Impact ==> match args.field_text("name"@) {
                Some(s) => call matches Ok(c) && c.subject == s,
                None => call == Err::<CallView, ErrorView>(ErrorView::Missing("name"@)),
            }
            &&& kind is FileMap || kind is Overview ==> call is Ok
        }),
{
}

/// What a tool needs is what a call of it is refused without.
pub proof fn law_required_properties_are_needed(kind: ToolKind, root: Seq<char>, args: JsonView)
    ensures
        ({
            let required = required_of(kind);
            let call = call_for(kind, root, args);
            &&& required.len() <= 1
            &&& required.len() == 0 && !(kind is MultiGrep) ==> call is Ok
            &&& required.len() == 1 ==> {
                &&& args.field_text(required[0]) is Some ==> call is Ok
                &&& args.field_text(required[0]) is None && args.field_text("needle"@) is None
                    ==> call == Err::<CallView, ErrorView>(ErrorView::Missing(required[0]))
            }
        }),
{
}

/// A search for several texts takes them from the list `queries`, and from `patterns`
/// where there is no such field; what is no text in it is left out. A call without
/// such a list is refused.
pub proof fn law_several_texts(root: Seq<char>, args: JsonView, items: Seq<JsonView>)
    ensures
        ({
            let call = call_for(ToolKind::MultiGrep, root, args);
            let list = if args.field("queries"@) is Some {
                args.field("queries"@)
            } else {
                args.field("patterns"@)
            };
            &&& list == Some(JsonView::List(items)) ==> call is Ok && call->Ok_0.needles
                == texts_in(items)
            &&& !(list matches Some(JsonView::List(_))) ==> call == Err::<CallView, ErrorView>(
                ErrorView::Missing("queries or patterns"@),
            )
        }),
{
}

/// How many results a call asks for: as many as `maxResults` says, or `limit` where
/// there is no such number. Where neither says, or the number is zero, it is 20 for
/// the searches and the overview, 5 for a flow and 50 for the others. A map goes as
/// deep as `depth` says, ten levels at most, and two where it does not say.
pub proof fn law_limits_of_calls(kind: ToolKind, root: Seq<char>, args: JsonView)
    requires
        call_for(kind, root, args) is Ok,
    ensures
        ({
            let limit = call_for(kind, root, args)->Ok_0.limit;
            let asked = match args.field_rounded("maxResults"@) {
                Some(n) => Some(n),
                None => args.field_whole("limit"@),
            };
            &&& !(kind is FileMap) && asked is Some && 0 < asked->0 <= usize::MAX ==> limit
                == asked->0
            &&& asked is None || asked == Some(0u64) ==> {
                &&& kind is Grep || kind is MultiGrep || kind is Overview ==> limit == 20
                &&& kind is Flow ==> limit == 5
                &&& !(kind is Grep || kind is MultiGrep || kind is Overview || kind is Flow
                    || kind is FileMap) ==> limit == 50
            }
            &&& kind is FileMap ==> match args.field_whole("depth"@) {
                Some(n) => (n <= 10 ==> limit == n) && (n > 10 ==> limit == 10),
                None => limit == 2,
            }
        }),
{
}

/// Only a search for lines and one for paths start further on, as far as `offset`
/// says. Only a read has a budget of its own, if `maxTokens` says a number above
/// zero.
pub proof fn law_offsets_and_budgets(kind: ToolKind, root: Seq<char>, args: JsonView)
    requires
        call_for(kind, root, args) is Ok,
    ensures
        ({
            let call = call_for(kind, root, args)->Ok_0;
            &&& call.kind == kind
            &&& kind is Grep || kind is Glob ==> match args.field_whole("offset"@) {
                Some(n) => n <= usize::MAX ==> call.offset == n,
                None => call.offset == 0,
            }
            &&& !(kind is Grep || kind is Glob) ==> call.offset == 0
            &&& kind is Read ==> match args.field_whole("maxTokens"@) {
                Some(n) => call.max_tokens == if n > 0 {
                    Some(n)
                } else {
                    None
                },
                None => call.max_tokens is None,
            }
            &&& !(kind is Read) ==> call.max_tokens is None
        }),
{
}

/// A tool on a file looks below the root, and a read may name a line behind a colon.
pub proof fn law_calls_on_files(
    kind: ToolKind,
    root: Seq<char>,
    args: JsonView,
    path: Seq<char>,
    line: u32,
)
    requires
        line > 0,
        call_for(kind, root, args) is Ok,
    ensures
        ({
            let call = call_for(kind, root, args)->Ok_0;
            let given = args.field_text("path"@);
            &&& given == Some(path) && (kind is Outline || kind is Deps) ==> call.path == joined(
                root,
                path,
            ) && call.line is None
            &&& given == Some(path) && kind is Read && !path.contains(':') ==> call.path == joined(
                root,
                path,
            ) && call.line is None
            &&& given == Some(path.push(':') + decimal(line as nat)) && kind is Read ==> call.path
                == joined(root, path) && call.line == Some(line)
            &&& !(kind is Read || kind is Outline || kind is Deps) ==> call.path.len() == 0
                && call.line is None
        }),
{
    law_target_round_trip(path, line);
    law_target_without_line(path);
}

/// A call by name is a call of the tool with that name, and one of no tool is refused
/// with the name.
pub proof fn law_calls_by_name(root: Seq<char>, name: Seq<char>, kind: ToolKind, args: JsonView)
    ensures
        name == name_of(kind) ==> named_call(root, name, args) == call_for(kind, root, args),
        (forall|k: ToolKind| name != #[trigger] name_of(k)) ==> named_call(root, name, args) == Err::<
            CallView,
            ErrorView,
        >(ErrorView::UnknownTool(name)),
{
    law_tool_names(kind, name);
}

/// What each method asks for. A call takes the tool from `name` and its arguments from
/// `arguments`; a method that is not known is refused with its name.
pub proof fn law_methods(root: Seq<char>, method: Seq<char>, params: JsonView, tool: Seq<char>)
    ensures
        ask_for(root, "notifications/initialized"@, params) == Ok::<AskView, ErrorView>(
            AskView::Nothing,
        ),
        ask_for(root, "initialize"@, params) == Ok::<AskView, ErrorView>(AskView::Initialize),
        ask_for(root, "tools/list"@, params) == Ok::<AskView, ErrorView>(AskView::ListTools),
        params.field_text("name"@) is None ==> ask_for(root, "tools/call"@, params) == Err::<
            AskView,
            ErrorView,
        >(ErrorView::MissingToolName),
        params.field_text("name"@) == Some(tool) ==> {
            let args = match params.field("arguments"@) {
                Some(v) => v,
                None => JsonView::Null,
            };
            ask_for(root, "tools/call"@, params) == match named_call(root, tool, args) {
                Ok(call) => Ok::<AskView, ErrorView>(AskView::Call(call)),
                Err(e) => Err::<AskView, ErrorView>(e),
            }
        },
        method != "notifications/initialized"@ && method != "initialize"@ && method
            != "tools/list"@ && method != "tools/call"@ ==> ask_for(root, method, params) == Err::<
            AskView,
            ErrorView,
        >(ErrorView::UnknownMethod(method)),
{
    reveal_strlit("notifications/initialized");
    reveal_strlit("initialize");
    reveal_strlit("tools/list");
    reveal_strlit("tools/call");
    assert("notifications/initialized"@.len() == 25 && "initialize"@.len() == 10);
    assert("tools/list"@.len() == 10 && "tools/call"@.len() == 10);
    assert("initialize"@[0] == 'i' && "tools/list"@[0] == 't' && "tools/call"@[0] == 't');
    assert("tools/list"@[6] == 'l' && "tools/call"@[6] == 'c');
}

/// Which tools need the symbols of the workspace: those that look up or count
/// definitions, and those that ask for them by name.
pub proof fn law_tools_on_symbols(kind: ToolKind)
    ensures
        needs_symbols(kind) <==> !(kind is Grep || kind is MultiGrep || kind is Glob || kind is Find
            || kind is Read || kind is Outline || kind is Deps || kind is FileMap),
        forall|call: CallView| #[trigger]
            asks_for_symbols(AskView::Call(call)) == needs_symbols(call.kind),
        !asks_for_symbols(AskView::Nothing),
        !asks_for_symbols(AskView::Initialize),
        !asks_for_symbols(AskView::ListTools),
{
}

/// What a refusal says.
pub proof fn law_refusals_say_why(name: Seq<char>)
    ensures
        error_text(ErrorView::MissingToolName) == "missing tool name"@,
        error_text(ErrorView::UnknownMethod(name)) == "unknown method: "@ + name,
        error_text(ErrorView::UnknownTool(name)) == "unknown tool: "@ + name,
        error_text(ErrorView::Missing(name)) == "missing "@ + name,
        error_text(ErrorView::Failed(name)) == name,
{
}

/// An answer in words is one piece of text, and the server says its protocol, its
/// name and its version, and that it has tools.
pub proof fn law_answers_in_words(text: Seq<char>, version: Seq<char>)
    ensures
        text_answer(text).field("content"@) matches Some(JsonView::List(items)) && items.len() == 1
            && items[0].field_text("type"@) == Some("text"@) && items[0].field_text("text"@)
            == Some(text),
        server_info(version).field_text("protocolVersion"@) == Some("2024-11-05"@),
        server_info(version).field("serverInfo"@) matches Some(info) && info.field_text("name"@)
            == Some("ffs"@) && info.field_text("version"@) == Some(version),
        server_info(version).field("capabilities"@) matches Some(can) && can.field("tools"@)
            == Some(JsonView::Object(seq![])),
{
    reveal_strlit("type");
    reveal_strlit("text");
    reveal_strlit("name");
    reveal_strlit("version");
    reveal_strlit("protocolVersion");
    reveal_strlit("serverInfo");
    reveal_strlit("capabilities");
    reveal_with_fuel(find_field, 4);
    assert("type"@[1] == 'y' && "text"@[1] == 'e');
    assert("name"@.len() == 4 && "version"@.len() == 7);
    assert("protocolVersion"@.len() == 15 && "serverInfo"@.len() == 10 && "capabilities"@.len()
        == 12);
    let piece = JsonView::Object(
        seq![("type"@, JsonView::Text("text"@)), ("text"@, JsonView::Text(text))],
    );
    assert(piece.field("type"@) == Some(JsonView::Text("text"@)));
    assert(piece.field("text"@) == Some(JsonView::Text(text)));
    assert(text_answer(text).field("content"@) == Some(JsonView::List(seq![piece])));
    let info = JsonView::Object(
        seq![("name"@, JsonView::Text("ffs"@)), ("version"@, JsonView::Text(version))],
    );
    assert(info.field("name"@) == Some(JsonView::Text("ffs"@)));
    assert(info.field("version"@) == Some(JsonView::Text(version)));
    assert(server_info(version).field("serverInfo"@) == Some(info));
    let can = JsonView::Object(seq![("tools"@, JsonView::Object(seq![]))]);
    assert(can.field("tools"@) == Some(JsonView::Object(seq![])));
    assert(server_info(version).field("capabilities"@) == Some(can));
}

/// How a request is refused: with one code and the words of the parser if it cannot be
/// read, and with another and the reason if it asks for what there is not.
pub proof fn law_failures(f: Failure, detail: Seq<char>, e: ErrorView)
    ensures
        is_unreadable(f, detail) <==> f.code == -32700 && f.message@ == "parse error: "@ + detail,
        is_refusal(f, e) <==> f.code == -32000 && f.message@ == error_text(e),
{
}

} // verus!
