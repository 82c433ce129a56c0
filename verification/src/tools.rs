//! The tools that the server offers.

use vstd::prelude::*;

use crate::json::Json;
use crate::json::JsonView;
use crate::json::field_views;
use crate::json::find_field;
use crate::json::json_views;

verus! {

/// A tool.
#[derive(Debug, PartialEq, Eq, Structural, Clone, Copy)]
pub enum ToolKind {
    Grep,
    MultiGrep,
    Glob,
    Find,
    Read,
    Outline,
    Symbol,
    Callers,
    Callees,
    Refs,
    Flow,
    Siblings,
    Deps,
    Impact,
    FileMap,
    Overview,
    Dispatch,
}

/// What a property of a tool's arguments has to be.
#[derive(Debug, PartialEq, Eq, Structural, Clone, Copy)]
pub enum PropertyKind {
    /// A text.
    Text,
    /// A list of texts.
    Texts,
    /// A whole number, no less than the minimum.
    Whole { minimum: u64 },
}

/// A property of a tool's arguments.
#[derive(Debug)]
pub struct Property {
    /// Its name.
    pub name: &'static str,
    /// What it has to be.
    pub kind: PropertyKind,
    /// What it is for.
    pub description: &'static str,
}

/// A tool as it is offered.
#[derive(Debug)]
pub struct Tool {
    /// Its name.
    pub name: &'static str,
    /// What it is for.
    pub description: &'static str,
    /// The properties that its arguments must have.
    pub required: Vec<&'static str>,
    /// The properties that its arguments may have.
    pub properties: Vec<Property>,
}

/// What a property says.
#[verifier::ext_equal]
pub struct PropertyView {
    pub name: Seq<char>,
    pub kind: PropertyKind,
    pub description: Seq<char>,
}

/// What a tool says.
#[verifier::ext_equal]
pub struct ToolView {
    pub name: Seq<char>,
    pub description: Seq<char>,
    pub required: Seq<Seq<char>>,
    pub properties: Seq<PropertyView>,
}

impl View for Property {
    type V = PropertyView;

    open spec fn view(&self) -> PropertyView {
        PropertyView { name: self.name@, kind: self.kind, description: self.description@ }
    }
}

/// What each property of a list says.
pub open spec fn property_views(v: Seq<Property>) -> Seq<PropertyView> {
    v.map_values(|p: Property| p@)
}

/// The texts of literals.
pub open spec fn literal_texts(v: Seq<&'static str>) -> Seq<Seq<char>> {
    v.map_values(|s: &'static str| s@)
}

impl View for Tool {
    type V = ToolView;

    open spec fn view(&self) -> ToolView {
        ToolView {
            name: self.name@,
            description: self.description@,
            required: literal_texts(self.required@),
            properties: property_views(self.properties@),
        }
    }
}

/// What each tool of a list says.
pub open spec fn tool_views(v: Seq<Tool>) -> Seq<ToolView> {
    v.map_values(|t: Tool| t@)
}

/// A property that is a text.
pub open spec fn a_text(name: Seq<char>, description: Seq<char>) -> PropertyView {
    PropertyView { name, kind: PropertyKind::Text, description }
}

/// A property that is a list of texts.
pub open spec fn some_texts(name: Seq<char>, description: Seq<char>) -> PropertyView {
    PropertyView { name, kind: PropertyKind::Texts, description }
}

/// A property that is a whole number.
pub open spec fn a_number(name: Seq<char>, minimum: u64, description: Seq<char>) -> PropertyView {
    PropertyView { name, kind: PropertyKind::Whole { minimum }, description }
}

/// The name of a tool.
pub open spec fn name_of(kind: ToolKind) -> Seq<char> {
    match kind {
        ToolKind::Grep => "ffs_grep"@,
        ToolKind::MultiGrep => "ffs_multi_grep"@,
        ToolKind::Glob => "ffs_glob"@,
        ToolKind::Find => "ffs_find"@,
        ToolKind::Read => "ffs_read"@,
        ToolKind::Outline => "ffs_outline"@,
        ToolKind::Symbol => "ffs_symbol"@,
        ToolKind::Callers => "ffs_callers"@,
        ToolKind::Callees => "ffs_callees"@,
        ToolKind::Refs => "ffs_refs"@,
        ToolKind::Flow => "ffs_flow"@,
        ToolKind::Siblings => "ffs_siblings"@,
        ToolKind::Deps => "ffs_deps"@,
        ToolKind::Impact => "ffs_impact"@,
        ToolKind::FileMap => "ffs_map"@,
        ToolKind::Overview => "ffs_overview"@,
        ToolKind::Dispatch => "ffs_dispatch"@,
    }
}

/// The tool with the given name.
pub open spec fn kind_of(name: Seq<char>) -> Option<ToolKind> {
    if name == "ffs_grep"@ {
        Some(ToolKind::Grep)
    } else if name == "ffs_multi_grep"@ {
        Some(ToolKind::MultiGrep)
    } else if name == "ffs_glob"@ {
        Some(ToolKind::Glob)
    } else if name == "ffs_find"@ {
        Some(ToolKind::Find)
    } else if name == "ffs_read"@ {
        Some(ToolKind::Read)
    } else if name == "ffs_outline"@ {
        Some(ToolKind::Outline)
    } else if name == "ffs_symbol"@ {
        Some(ToolKind::Symbol)
    } else if name == "ffs_callers"@ {
        Some(ToolKind::Callers)
    } else if name == "ffs_callees"@ {
        Some(ToolKind::Callees)
    } else if name == "ffs_refs"@ {
        Some(ToolKind::Refs)
    } else if name == "ffs_flow"@ {
        Some(ToolKind::Flow)
    } else if name == "ffs_siblings"@ {
        Some(ToolKind::Siblings)
    } else if name == "ffs_deps"@ {
        Some(ToolKind::Deps)
    } else if name == "ffs_impact"@ {
        Some(ToolKind::Impact)
    } else if name == "ffs_map"@ {
        Some(ToolKind::FileMap)
    } else if name == "ffs_overview"@ {
        Some(ToolKind::Overview)
    } else if name == "ffs_dispatch"@ {
        Some(ToolKind::Dispatch)
    } else {
        None
    }
}

/// What a tool is for.
pub open spec fn purpose_of(kind: ToolKind) -> Seq<char> {
    match kind {
        ToolKind::Grep => "Search file contents (replaces Grep). Plain / regex / fuzzy auto-detect."@,
        ToolKind::MultiGrep => "OR-logic multi-pattern content search via SIMD Aho-Corasick. Accepts `queries` or `patterns`."@,
        ToolKind::Glob => "Match files by glob pattern (replaces Glob)."@,
        ToolKind::Find => "Fuzzy file path search."@,
        ToolKind::Read => "Read a file with token-budget aware truncation (replaces Read)."@,
        ToolKind::Outline => "Structural outline of a file (functions, classes, top-level decls)."@,
        ToolKind::Symbol => "Look up symbol definitions across the workspace."@,
        ToolKind::Callers => "Find call sites of a symbol."@,
        ToolKind::Callees => "List symbols referenced inside the body of a definition."@,
        ToolKind::Refs => "Definitions plus single-hop usages of a symbol."@,
        ToolKind::Flow => "Drill-down envelope per definition (def + body + callees + callers)."@,
        ToolKind::Siblings => "Peers of a symbol in its parent scope."@,
        ToolKind::Deps => "A file's imports plus the workspace files that depend on it."@,
        ToolKind::Impact => "Rank workspace files by how much they'd be affected if `name` changed."@,
        ToolKind::FileMap => "Workspace tree annotated with file count and per-directory token estimate."@,
        ToolKind::Overview => "High-signal repo summary: languages, top-defined symbols, entry-point candidates."@,
        ToolKind::Dispatch => "Auto-classify a free-form query."@,
    }
}

/// What the arguments of a tool must have.
pub open spec fn required_of(kind: ToolKind) -> Seq<Seq<char>> {
    match kind {
        ToolKind::Grep => seq!["query"@],
        ToolKind::MultiGrep => seq![],
        ToolKind::Glob => seq!["pattern"@],
        ToolKind::Find => seq!["query"@],
        ToolKind::Read => seq!["path"@],
        ToolKind::Outline => seq!["path"@],
        ToolKind::Symbol => seq!["name"@],
        ToolKind::Callers => seq!["name"@],
        ToolKind::Callees => seq!["name"@],
        ToolKind::Refs => seq!["name"@],
        ToolKind::Flow => seq!["name"@],
        ToolKind::Siblings => seq!["name"@],
        ToolKind::Deps => seq!["path"@],
        ToolKind::Impact => seq!["name"@],
        ToolKind::FileMap => seq![],
        ToolKind::Overview => seq![],
        ToolKind::Dispatch => seq!["query"@],
    }
}

/// What the arguments of a tool may have.
pub open spec fn properties_of(kind: ToolKind) -> Seq<PropertyView> {
    match kind {
        ToolKind::Grep => seq![
            a_text("query"@, "Text to find in file contents."@),
            a_text("needle"@, "Alias for `query` to match the CLI flag name."@),
            a_number("maxResults"@, 1, "Maximum matching lines to return."@),
            a_number("offset"@, 0, "Skip this many matches before starting the page. Use with maxResults to page through large result sets."@),
        ],
        ToolKind::MultiGrep => seq![
            some_texts("queries"@, "Patterns to OR together (legacy name)."@),
            some_texts("patterns"@, "Alias for `queries` (matches engine/agent docs)."@),
            a_number("maxResults"@, 1, "Maximum matching lines to return."@),
            a_number("limit"@, 1, "Alias for maxResults."@),
        ],
        ToolKind::Glob => seq![
            a_text("pattern"@, "Glob pattern, for example src/**/*.rs."@),
            a_number("maxResults"@, 1, "Maximum matching paths to return."@),
            a_number("offset"@, 0, "Skip this many matches before starting the page. Use with maxResults to page through large result sets."@),
        ],
        ToolKind::Find => seq![
            a_text("query"@, "Path substring or fuzzy filename query."@),
            a_text("needle"@, "Alias for `query` to match the CLI flag name."@),
            a_number("maxResults"@, 1, "Maximum matching paths to return."@),
        ],
        ToolKind::Read => seq![
            a_text("path"@, "Relative or absolute file path."@),
            a_number("maxTokens"@, 1, "Token budget for the response."@),
        ],
        ToolKind::Outline => seq![
            a_text("path"@, "Relative or absolute file path."@),
        ],
        ToolKind::Symbol => seq![
            a_text("name"@, "Exact symbol name to look up."@),
            a_number("maxResults"@, 1, "Maximum matching definitions to return."@),
        ],
        ToolKind::Callers => seq![
            a_text("name"@, "Symbol whose callers should be listed."@),
            a_number("maxResults"@, 1, "Maximum matching call sites to return."@),
        ],
        ToolKind::Callees => seq![
            a_text("name"@, "Symbol whose body should be inspected."@),
            a_number("maxResults"@, 1, "Maximum referenced symbols to return."@),
        ],
        ToolKind::Refs => seq![
            a_text("name"@, "Symbol to look up."@),
            a_number("maxResults"@, 1, "Maximum matching usages to return."@),
        ],
        ToolKind::Flow => seq![
            a_text("name"@, "Symbol whose call envelope is requested."@),
            a_number("maxResults"@, 1, "Maximum number of definitions to expand."@),
        ],
        ToolKind::Siblings => seq![
            a_text("name"@, "Target symbol whose siblings should be listed."@),
            a_number("maxResults"@, 1, "Maximum siblings to return."@),
        ],
        ToolKind::Deps => seq![
            a_text("path"@, "File path to analyse, relative to the root."@),
        ],
        ToolKind::Impact => seq![
            a_text("name"@, "Symbol whose impact should be assessed."@),
            a_number("maxResults"@, 1, "Maximum affected files to return."@),
        ],
        ToolKind::FileMap => seq![
            a_number("depth"@, 1, "Maximum directory depth to render."@),
        ],
        ToolKind::Overview => seq![
            a_number("limit"@, 1, "How many top symbols / files to surface."@),
        ],
        ToolKind::Dispatch => seq![
            a_text("query"@, "Free-form search or navigation query."@),
        ],
    }
}

/// A tool as it is offered.
pub open spec fn offered(kind: ToolKind) -> ToolView {
    ToolView {
        name: name_of(kind),
        description: purpose_of(kind),
        required: required_of(kind),
        properties: properties_of(kind),
    }
}

/// The tools in the order in which they are offered.
pub open spec fn tool_order() -> Seq<ToolKind> {
    seq![
        ToolKind::Grep,
        ToolKind::MultiGrep,
        ToolKind::Glob,
        ToolKind::Find,
        ToolKind::Read,
        ToolKind::Outline,
        ToolKind::Symbol,
        ToolKind::Callers,
        ToolKind::Callees,
        ToolKind::Refs,
        ToolKind::Flow,
        ToolKind::Siblings,
        ToolKind::Deps,
        ToolKind::Impact,
        ToolKind::FileMap,
        ToolKind::Overview,
        ToolKind::Dispatch,
    ]
}

/// All tools as they are offered.
pub open spec fn tool_table() -> Seq<ToolView> {
    tool_order().map_values(|kind: ToolKind| offered(kind))
}

/// A property that is a text.
fn text_property(name: &'static str, description: &'static str) -> (res: Property)
    ensures
        res@ == a_text(name@, description@),
{
    Property { name, kind: PropertyKind::Text, description }
}

/// A property that is a list of texts.
fn texts_property(name: &'static str, description: &'static str) -> (res: Property)
    ensures
        res@ == some_texts(name@, description@),
{
    Property { name, kind: PropertyKind::Texts, description }
}

/// A property that is a whole number.
fn whole_property(name: &'static str, minimum: u64, description: &'static str) -> (res: Property)
    ensures
        res@ == a_number(name@, minimum, description@),
{
    Property { name, kind: PropertyKind::Whole { minimum }, description }
}

/// The name of a tool.
pub fn tool_name(kind: ToolKind) -> (res: &'static str)
    ensures
        res@ == name_of(kind),
{
    match kind {
        ToolKind::Grep => "ffs_grep",
        ToolKind::MultiGrep => "ffs_multi_grep",
        ToolKind::Glob => "ffs_glob",
        ToolKind::Find => "ffs_find",
        ToolKind::Read => "ffs_read",
        ToolKind::Outline => "ffs_outline",
        ToolKind::Symbol => "ffs_symbol",
        ToolKind::Callers => "ffs_callers",
        ToolKind::Callees => "ffs_callees",
        ToolKind::Refs => "ffs_refs",
        ToolKind::Flow => "ffs_flow",
        ToolKind::Siblings => "ffs_siblings",
        ToolKind::Deps => "ffs_deps",
        ToolKind::Impact => "ffs_impact",
        ToolKind::FileMap => "ffs_map",
        ToolKind::Overview => "ffs_overview",
        ToolKind::Dispatch => "ffs_dispatch",
    }
}

/// The tool with the given name.
pub fn tool_kind(name: &str) -> (res: Option<ToolKind>)
    ensures
        res == kind_of(name@),
{
    if *name == *"ffs_grep" {
        Some(ToolKind::Grep)
    } else if *name == *"ffs_multi_grep" {
        Some(ToolKind::MultiGrep)
    } else if *name == *"ffs_glob" {
        Some(ToolKind::Glob)
    } else if *name == *"ffs_find" {
        Some(ToolKind::Find)
    } else if *name == *"ffs_read" {
        Some(ToolKind::Read)
    } else if *name == *"ffs_outline" {
        Some(ToolKind::Outline)
    } else if *name == *"ffs_symbol" {
        Some(ToolKind::Symbol)
    } else if *name == *"ffs_callers" {
        Some(ToolKind::Callers)
    } else if *name == *"ffs_callees" {
        Some(ToolKind::Callees)
    } else if *name == *"ffs_refs" {
        Some(ToolKind::Refs)
    } else if *name == *"ffs_flow" {
        Some(ToolKind::Flow)
    } else if *name == *"ffs_siblings" {
        Some(ToolKind::Siblings)
    } else if *name == *"ffs_deps" {
        Some(ToolKind::Deps)
    } else if *name == *"ffs_impact" {
        Some(ToolKind::Impact)
    } else if *name == *"ffs_map" {
        Some(ToolKind::FileMap)
    } else if *name == *"ffs_overview" {
        Some(ToolKind::Overview)
    } else if *name == *"ffs_dispatch" {
        Some(ToolKind::Dispatch)
    } else {
        None
    }
}

/// What a tool is for.
fn tool_purpose(kind: ToolKind) -> (res: &'static str)
    ensures
        res@ == purpose_of(kind),
{
    match kind {
        ToolKind::Grep => "Search file contents (replaces Grep). Plain / regex / fuzzy auto-detect.",
        ToolKind::MultiGrep => "OR-logic multi-pattern content search via SIMD Aho-Corasick. Accepts `queries` or `patterns`.",
        ToolKind::Glob => "Match files by glob pattern (replaces Glob).",
        ToolKind::Find => "Fuzzy file path search.",
        ToolKind::Read => "Read a file with token-budget aware truncation (replaces Read).",
        ToolKind::Outline => "Structural outline of a file (functions, classes, top-level decls).",
        ToolKind::Symbol => "Look up symbol definitions across the workspace.",
        ToolKind::Callers => "Find call sites of a symbol.",
        ToolKind::Callees => "List symbols referenced inside the body of a definition.",
        ToolKind::Refs => "Definitions plus single-hop usages of a symbol.",
        ToolKind::Flow => "Drill-down envelope per definition (def + body + callees + callers).",
        ToolKind::Siblings => "Peers of a symbol in its parent scope.",
        ToolKind::Deps => "A file's imports plus the workspace files that depend on it.",
        ToolKind::Impact => "Rank workspace files by how much they'd be affected if `name` changed.",
        ToolKind::FileMap => "Workspace tree annotated with file count and per-directory token estimate.",
        ToolKind::Overview => "High-signal repo summary: languages, top-defined symbols, entry-point candidates.",
        ToolKind::Dispatch => "Auto-classify a free-form query.",
    }
}

/// What the arguments of a tool must have.
fn required_properties(kind: ToolKind) -> (res: Vec<&'static str>)
    ensures
        literal_texts(res@) == required_of(kind),
{
    let res: Vec<&'static str> = match kind {
        ToolKind::Grep => vec!["query"],
        ToolKind::MultiGrep => vec![],
        ToolKind::Glob => vec!["pattern"],
        ToolKind::Find => vec!["query"],
        ToolKind::Read => vec!["path"],
        ToolKind::Outline => vec!["path"],
        ToolKind::Symbol => vec!["name"],
        ToolKind::Callers => vec!["name"],
        ToolKind::Callees => vec!["name"],
        ToolKind::Refs => vec!["name"],
        ToolKind::Flow => vec!["name"],
        ToolKind::Siblings => vec!["name"],
        ToolKind::Deps => vec!["path"],
        ToolKind::Impact => vec!["name"],
        ToolKind::FileMap => vec![],
        ToolKind::Overview => vec![],
        ToolKind::Dispatch => vec!["query"],
    };
    assert(literal_texts(res@) =~= required_of(kind));
    res
}

/// What the arguments of a tool may have.
fn allowed_properties(kind: ToolKind) -> (res: Vec<Property>)
    ensures
        property_views(res@) == properties_of(kind),
{
    let res: Vec<Property> = match kind {
        ToolKind::Grep => vec![
            text_property("query", "Text to find in file contents."),
            text_property("needle", "Alias for `query` to match the CLI flag name."),
            whole_property("maxResults", 1, "Maximum matching lines to return."),
            whole_property("offset", 0, "Skip this many matches before starting the page. Use with maxResults to page through large result sets."),
        ],
        ToolKind::MultiGrep => vec![
            texts_property("queries", "Patterns to OR together (legacy name)."),
            texts_property("patterns", "Alias for `queries` (matches engine/agent docs)."),
            whole_property("maxResults", 1, "Maximum matching lines to return."),
            whole_property("limit", 1, "Alias for maxResults."),
        ],
        ToolKind::Glob => vec![
            text_property("pattern", "Glob pattern, for example src/**/*.rs."),
            whole_property("maxResults", 1, "Maximum matching paths to return."),
            whole_property("offset", 0, "Skip this many matches before starting the page. Use with maxResults to page through large result sets."),
        ],
        ToolKind::Find => vec![
            text_property("query", "Path substring or fuzzy filename query."),
            text_property("needle", "Alias for `query` to match the CLI flag name."),
            whole_property("maxResults", 1, "Maximum matching paths to return."),
        ],
        ToolKind::Read => vec![
            text_property("path", "Relative or absolute file path."),
            whole_property("maxTokens", 1, "Token budget for the response."),
        ],
        ToolKind::Outline => vec![
            text_property("path", "Relative or absolute file path."),
        ],
        ToolKind::Symbol => vec![
            text_property("name", "Exact symbol name to look up."),
            whole_property("maxResults", 1, "Maximum matching definitions to return."),
        ],
        ToolKind::Callers => vec![
            text_property("name", "Symbol whose callers should be listed."),
            whole_property("maxResults", 1, "Maximum matching call sites to return."),
        ],
        ToolKind::Callees => vec![
            text_property("name", "Symbol whose body should be inspected."),
            whole_property("maxResults", 1, "Maximum referenced symbols to return."),
        ],
        ToolKind::Refs => vec![
            text_property("name", "Symbol to look up."),
            whole_property("maxResults", 1, "Maximum matching usages to return."),
        ],
        ToolKind::Flow => vec![
            text_property("name", "Symbol whose call envelope is requested."),
            whole_property("maxResults", 1, "Maximum number of definitions to expand."),
        ],
        ToolKind::Siblings => vec![
            text_property("name", "Target symbol whose siblings should be listed."),
            whole_property("maxResults", 1, "Maximum siblings to return."),
        ],
        ToolKind::Deps => vec![
            text_property("path", "File path to analyse, relative to the root."),
        ],
        ToolKind::Impact => vec![
            text_property("name", "Symbol whose impact should be assessed."),
            whole_property("maxResults", 1, "Maximum affected files to return."),
        ],
        ToolKind::FileMap => vec![
            whole_property("depth", 1, "Maximum directory depth to render."),
        ],
        ToolKind::Overview => vec![
            whole_property("limit", 1, "How many top symbols / files to surface."),
        ],
        ToolKind::Dispatch => vec![
            text_property("query", "Free-form search or navigation query."),
        ],
    };
    assert(property_views(res@) =~= properties_of(kind));
    res
}

/// A tool as it is offered.
pub fn tool(kind: ToolKind) -> (res: Tool)
    ensures
        res@ == offered(kind),
{
    Tool {
        name: tool_name(kind),
        description: tool_purpose(kind),
        required: required_properties(kind),
        properties: allowed_properties(kind),
    }
}

/// All tools, as they are offered.
pub fn tools_list() -> (res: Vec<Tool>)
    ensures
        tool_views(res@) == tool_table(),
{
    let order: Vec<ToolKind> = vec![
        ToolKind::Grep,
        ToolKind::MultiGrep,
        ToolKind::Glob,
        ToolKind::Find,
        ToolKind::Read,
        ToolKind::Outline,
        ToolKind::Symbol,
        ToolKind::Callers,
        ToolKind::Callees,
        ToolKind::Refs,
        ToolKind::Flow,
        ToolKind::Siblings,
        ToolKind::Deps,
        ToolKind::Impact,
        ToolKind::FileMap,
        ToolKind::Overview,
        ToolKind::Dispatch,
    ];
    assert(order@ =~= tool_order());
    let mut res: Vec<Tool> = Vec::new();
    let mut i: usize = 0;
    while i < order.len()
        invariant
            i <= order@.len(),
            order@ == tool_order(),
            res@.len() == i,
            forall|k: int| 0 <= k < i ==> (#[trigger] res@[k])@ == offered(order@[k]),
        decreases order@.len() - i,
    {
        res.push(tool(order[i]));
        i = i + 1;
    }
    assert(tool_views(res@) =~= tool_table());
    res
}

/// What a property has to be, as a schema.
pub open spec fn property_schema(p: PropertyView) -> JsonView {
    match p.kind {
        PropertyKind::Text => JsonView::Object(
            seq![
                ("type"@, JsonView::Text("string"@)),
                ("description"@, JsonView::Text(p.description)),
            ],
        ),
        PropertyKind::Texts => JsonView::Object(
            seq![
                ("type"@, JsonView::Text("array"@)),
                (
                    "items"@,
                    JsonView::Object(seq![("type"@, JsonView::Text("string"@))]),
                ),
                ("description"@, JsonView::Text(p.description)),
            ],
        ),
        PropertyKind::Whole { minimum } => JsonView::Object(
            seq![
                ("type"@, JsonView::Text("integer"@)),
                ("minimum"@, JsonView::Whole(minimum)),
                ("description"@, JsonView::Text(p.description)),
            ],
        ),
    }
}

/// The properties of a schema.
pub open spec fn schema_properties(properties: Seq<PropertyView>) -> Seq<(Seq<char>, JsonView)> {
    properties.map_values(|p: PropertyView| (p.name, property_schema(p)))
}

/// Texts as JSON.
pub open spec fn json_texts(s: Seq<Seq<char>>) -> Seq<JsonView> {
    s.map_values(|t: Seq<char>| JsonView::Text(t))
}

/// The schema of an object with the given properties.
pub open spec fn schema_of(properties: JsonView, required: Seq<Seq<char>>) -> JsonView {
    JsonView::Object(
        seq![
            ("$schema"@, JsonView::Text("http://json-schema.org/draft-07/schema#"@)),
            ("type"@, JsonView::Text("object"@)),
            ("properties"@, properties),
            ("required"@, JsonView::List(json_texts(required))),
            ("additionalProperties"@, JsonView::Bool(false)),
        ],
    )
}

/// A tool as JSON.
pub open spec fn tool_as_json(t: ToolView) -> JsonView {
    JsonView::Object(
        seq![
            ("name"@, JsonView::Text(t.name)),
            ("description"@, JsonView::Text(t.description)),
            (
                "inputSchema"@,
                schema_of(JsonView::Object(schema_properties(t.properties)), t.required),
            ),
        ],
    )
}

/// A field of an object.
pub fn field(name: &str, value: Json) -> (res: (String, Json))
    ensures
        res.0@ == name@,
        res.1 == value,
{
    (name.to_owned(), value)
}

/// What a property has to be, as a schema.
fn property_json(p: &Property) -> (res: Json)
    ensures
        res@ == property_schema(p@),
{
    let ghost wanted = property_schema(p@);
    let fields: Vec<(String, Json)> = match p.kind {
        PropertyKind::Text => vec![
            field("type", Json::text("string")),
            field("description", Json::text(p.description)),
        ],
        PropertyKind::Texts => {
            let item: Vec<(String, Json)> = vec![field("type", Json::text("string"))];
            assert(field_views(item@) =~= seq![("type"@, JsonView::Text("string"@))]);
            vec![
                field("type", Json::text("array")),
                field("items", Json::object(item)),
                field("description", Json::text(p.description)),
            ]
        },
        PropertyKind::Whole { minimum } => vec![
            field("type", Json::text("integer")),
            field("minimum", Json::Whole(minimum)),
            field("description", Json::text(p.description)),
        ],
    };
    assert(field_views(fields@) =~= wanted->Object_0);
    Json::object(fields)
}

/// The schema of an object with the given properties.
pub fn object_schema(properties: Json, required: &Vec<&'static str>) -> (res: Json)
    ensures
        res@ == schema_of(properties@, literal_texts(required@)),
{
    let mut names: Vec<Json> = Vec::new();
    let mut i: usize = 0;
    while i < required.len()
        invariant
            i <= required@.len(),
            names@.len() == i,
            forall|k: int| 0 <= k < i ==> (#[trigger] names@[k])@ == JsonView::Text(required@[k]@),
        decreases required@.len() - i,
    {
        names.push(Json::text(required[i]));
        i = i + 1;
    }
    assert(json_views(names@) =~= json_texts(literal_texts(required@)));
    let fields: Vec<(String, Json)> = vec![
        field("$schema", Json::text("http://json-schema.org/draft-07/schema#")),
        field("type", Json::text("object")),
        field("properties", properties),
        field("required", Json::list(names)),
        field("additionalProperties", Json::Bool(false)),
    ];
    assert(field_views(fields@) =~= schema_of(
        properties@,
        literal_texts(required@),
    )->Object_0);
    Json::object(fields)
}

/// A tool as JSON.
pub fn tool_json(t: &Tool) -> (res: Json)
    ensures
        res@ == tool_as_json(t@),
{
    let mut properties: Vec<(String, Json)> = Vec::new();
    let mut i: usize = 0;
    while i < t.properties.len()
        invariant
            i <= t.properties@.len(),
            properties@.len() == i,
            forall|k: int|
                0 <= k < i ==> (#[trigger] properties@[k]).0@ == t.properties@[k]@.name
                    && properties@[k].1@ == property_schema(t.properties@[k]@),
        decreases t.properties@.len() - i,
    {
        let p = &t.properties[i];
        properties.push(field(p.name, property_json(p)));
        i = i + 1;
    }
    assert(field_views(properties@) =~= schema_properties(property_views(t.properties@)));
    let schema = object_schema(Json::object(properties), &t.required);
    let fields: Vec<(String, Json)> = vec![
        field("name", Json::text(t.name)),
        field("description", Json::text(t.description)),
        field("inputSchema", schema),
    ];
    assert(field_views(fields@) =~= tool_as_json(t@)->Object_0);
    Json::object(fields)
}

/// All tools as JSON.
pub fn tools_json() -> (res: Json)
    ensures
        res@ == JsonView::List(tool_table().map_values(|t: ToolView| tool_as_json(t))),
{
    let tools = tools_list();
    let ghost wanted = tool_table().map_values(|t: ToolView| tool_as_json(t));
    let mut items: Vec<Json> = Vec::new();
    let mut i: usize = 0;
    assert(tool_views(tools@).len() == tools@.len());
    while i < tools.len()
        invariant
            i <= tools@.len(),
            tool_views(tools@) == tool_table(),
            wanted == tool_table().map_values(|t: ToolView| tool_as_json(t)),
            items@.len() == i,
            forall|k: int| 0 <= k < i ==> (#[trigger] items@[k])@ == wanted[k],
        decreases tools@.len() - i,
    {
        let item = tool_json(&tools[i]);
        assert(tool_views(tools@)[i as int] == tools@[i as int]@);
        items.push(item);
        i = i + 1;
    }
    assert(json_views(items@) =~= wanted);
    Json::list(items)
}

/// Every tool that is offered can be called by its name, and the name belongs
/// to no other tool.
pub proof fn law_offered_tools_are_known(kind: ToolKind)
    ensures
        kind_of(name_of(kind)) == Some(kind),
        tool_order().contains(kind),
{
    reveal_strlit("ffs_grep");
    reveal_strlit("ffs_multi_grep");
    reveal_strlit("ffs_glob");
    reveal_strlit("ffs_find");
    reveal_strlit("ffs_read");
    reveal_strlit("ffs_outline");
    reveal_strlit("ffs_symbol");
    reveal_strlit("ffs_callers");
    reveal_strlit("ffs_callees");
    reveal_strlit("ffs_refs");
    reveal_strlit("ffs_flow");
    reveal_strlit("ffs_siblings");
    reveal_strlit("ffs_deps");
    reveal_strlit("ffs_impact");
    reveal_strlit("ffs_map");
    reveal_strlit("ffs_overview");
    reveal_strlit("ffs_dispatch");
    assert("ffs_grep"@.len() == 8 && "ffs_grep"@[4] == 'g' && "ffs_grep"@[5] == 'r' && "ffs_grep"@[6] == 'e');
    assert("ffs_multi_grep"@.len() == 14 && "ffs_multi_grep"@[4] == 'm' && "ffs_multi_grep"@[5] == 'u' && "ffs_multi_grep"@[6] == 'l');
    assert("ffs_glob"@.len() == 8 && "ffs_glob"@[4] == 'g' && "ffs_glob"@[5] == 'l' && "ffs_glob"@[6] == 'o');
    assert("ffs_find"@.len() == 8 && "ffs_find"@[4] == 'f' && "ffs_find"@[5] == 'i' && "ffs_find"@[6] == 'n');
    assert("ffs_read"@.len() == 8 && "ffs_read"@[4] == 'r' && "ffs_read"@[5] == 'e' && "ffs_read"@[6] == 'a');
    assert("ffs_outline"@.len() == 11 && "ffs_outline"@[4] == 'o' && "ffs_outline"@[5] == 'u' && "ffs_outline"@[6] == 't');
    assert("ffs_symbol"@.len() == 10 && "ffs_symbol"@[4] == 's' && "ffs_symbol"@[5] == 'y' && "ffs_symbol"@[6] == 'm');
    assert("ffs_callers"@.len() == 11 && "ffs_callers"@[4] == 'c' && "ffs_callers"@[5] == 'a' && "ffs_callers"@[6] == 'l' && "ffs_callers"@[9] == 'r');
    assert("ffs_callees"@.len() == 11 && "ffs_callees"@[4] == 'c' && "ffs_callees"@[5] == 'a' && "ffs_callees"@[6] == 'l' && "ffs_callees"@[9] == 'e');
    assert("ffs_refs"@.len() == 8 && "ffs_refs"@[4] == 'r' && "ffs_refs"@[5] == 'e' && "ffs_refs"@[6] == 'f');
    assert("ffs_flow"@.len() == 8 && "ffs_flow"@[4] == 'f' && "ffs_flow"@[5] == 'l' && "ffs_flow"@[6] == 'o');
    assert("ffs_siblings"@.len() == 12 && "ffs_siblings"@[4] == 's' && "ffs_siblings"@[5] == 'i' && "ffs_siblings"@[6] == 'b');
    assert("ffs_deps"@.len() == 8 && "ffs_deps"@[4] == 'd' && "ffs_deps"@[5] == 'e' && "ffs_deps"@[6] == 'p');
    assert("ffs_impact"@.len() == 10 && "ffs_impact"@[4] == 'i' && "ffs_impact"@[5] == 'm' && "ffs_impact"@[6] == 'p');
    assert("ffs_map"@.len() == 7 && "ffs_map"@[4] == 'm' && "ffs_map"@[5] == 'a' && "ffs_map"@[6] == 'p');
    assert("ffs_overview"@.len() == 12 && "ffs_overview"@[4] == 'o' && "ffs_overview"@[5] == 'v' && "ffs_overview"@[6] == 'e');
    assert("ffs_dispatch"@.len() == 12 && "ffs_dispatch"@[4] == 'd' && "ffs_dispatch"@[5] == 'i' && "ffs_dispatch"@[6] == 's');
    let order = tool_order();
    match kind {
        ToolKind::Grep => {
            assert(order[0] == kind);
        },
        ToolKind::MultiGrep => {
            assert(order[1] == kind);
        },
        ToolKind::Glob => {
            assert(order[2] == kind);
        },
        ToolKind::Find => {
            assert(order[3] == kind);
        },
        ToolKind::Read => {
            assert(order[4] == kind);
        },
        ToolKind::Outline => {
            assert(order[5] == kind);
        },
        ToolKind::Symbol => {
            assert(order[6] == kind);
        },
        ToolKind::Callers => {
            assert(order[7] == kind);
        },
        ToolKind::Callees => {
            assert(order[8] == kind);
        },
        ToolKind::Refs => {
            assert(order[9] == kind);
        },
        ToolKind::Flow => {
            assert(order[10] == kind);
        },
        ToolKind::Siblings => {
            assert(order[11] == kind);
        },
        ToolKind::Deps => {
            assert(order[12] == kind);
        },
        ToolKind::Impact => {
            assert(order[13] == kind);
        },
        ToolKind::FileMap => {
            assert(order[14] == kind);
        },
        ToolKind::Overview => {
            assert(order[15] == kind);
        },
        ToolKind::Dispatch => {
            assert(order[16] == kind);
        },
    }
}

/// What the arguments of a tool must have, they may have.
pub proof fn law_required_is_allowed(kind: ToolKind, i: int)
    requires
        0 <= i < required_of(kind).len(),
    ensures
        exists|j: int|
            0 <= j < properties_of(kind).len() && (#[trigger] properties_of(kind)[j]).name
                == required_of(kind)[i],
{
    assert(properties_of(kind)[0].name == required_of(kind)[i]);
}

/// Every tool takes an object: its schema says so, and lists its properties and
/// which of them it must have.
pub proof fn law_tools_take_objects(t: ToolView)
    ensures
        tool_as_json(t).field("inputSchema"@) matches Some(schema) && {
            &&& schema.field_text("type"@) == Some("object"@)
            &&& schema.field("properties"@) == Some(
                JsonView::Object(schema_properties(t.properties)),
            )
            &&& schema.field("required"@) == Some(JsonView::List(json_texts(t.required)))
        },
{
    reveal_strlit("name");
    reveal_strlit("description");
    reveal_strlit("inputSchema");
    reveal_strlit("$schema");
    reveal_strlit("type");
    reveal_strlit("properties");
    reveal_strlit("required");
    reveal_with_fuel(find_field, 6);
    assert("name"@.len() == 4 && "description"@.len() == 11 && "inputSchema"@.len() == 11);
    assert("description"@[0] == 'd' && "inputSchema"@[0] == 'i');
    assert("$schema"@.len() == 7 && "type"@.len() == 4 && "properties"@.len() == 10);
    assert("required"@.len() == 8);
    let schema = schema_of(JsonView::Object(schema_properties(t.properties)), t.required);
    assert(tool_as_json(t).field("inputSchema"@) == Some(schema));
    assert(schema.field("type"@) == Some(JsonView::Text("object"@)));
}

/// Each tool goes by its own name, and no other text is the name of a tool.
pub proof fn law_tool_names(kind: ToolKind, name: Seq<char>)
    ensures
        ({
            &&& kind is Grep ==> name_of(kind) == "ffs_grep"@
            &&& kind is MultiGrep ==> name_of(kind) == "ffs_multi_grep"@
            &&& kind is Glob ==> name_of(kind) == "ffs_glob"@
            &&& kind is Find ==> name_of(kind) == "ffs_find"@
            &&& kind is Read ==> name_of(kind) == "ffs_read"@
            &&& kind is Outline ==> name_of(kind) == "ffs_outline"@
            &&& kind is Symbol ==> name_of(kind) == "ffs_symbol"@
            &&& kind is Callers ==> name_of(kind) == "ffs_callers"@
            &&& kind is Callees ==> name_of(kind) == "ffs_callees"@
            &&& kind is Refs ==> name_of(kind) == "ffs_refs"@
            &&& kind is Flow ==> name_of(kind) == "ffs_flow"@
            &&& kind is Siblings ==> name_of(kind) == "ffs_siblings"@
            &&& kind is Deps ==> name_of(kind) == "ffs_deps"@
            &&& kind is Impact ==> name_of(kind) == "ffs_impact"@
            &&& kind is FileMap ==> name_of(kind) == "ffs_map"@
            &&& kind is Overview ==> name_of(kind) == "ffs_overview"@
            &&& kind is Dispatch ==> name_of(kind) == "ffs_dispatch"@
        }),
        kind_of(name) == Some(kind) <==> name == name_of(kind),
        kind_of(name) is None <==> forall|k: ToolKind| name != #[trigger] name_of(k),
{
    law_offered_tools_are_known(kind);
    assert forall|k: ToolKind| name == #[trigger] name_of(k) implies kind_of(name) == Some(k) by {
        law_offered_tools_are_known(k);
    }
    if let Some(k) = kind_of(name) {
        assert(name_of(k) == name);
    }
}

/// The tools are listed in a fixed order, each once: for each kind there is one entry
/// with its name, what it needs and what it takes.
pub proof fn law_tools_are_listed_once(i: int, j: int)
    requires
        0 <= i < j < tool_table().len(),
    ensures
        tool_table().len() == 17,
        tool_table()[i].name != tool_table()[j].name,
        tool_table()[i].name == name_of(tool_order()[i]),
        tool_table()[i].required == required_of(tool_order()[i]),
        tool_table()[i].properties == properties_of(tool_order()[i]),
{
    law_offered_tools_are_known(tool_order()[i]);
    law_offered_tools_are_known(tool_order()[j]);
    assert(tool_order()[i] != tool_order()[j]);
}

/// The schema of a property says its type: a text, a list of texts, or a whole number
/// with a least value.
pub proof fn law_property_types(p: PropertyView)
    ensures
        property_schema(p).field_text("description"@) == Some(p.description),
        p.kind is Text ==> property_schema(p).field_text("type"@) == Some("string"@),
        p.kind is Texts ==> property_schema(p).field_text("type"@) == Some("array"@)
            && property_schema(p).field("items"@) is Some && (property_schema(p).field(
            "items"@,
        )->0).field_text("type"@) == Some("string"@),
        p.kind matches PropertyKind::Whole { minimum } ==> property_schema(p).field_text("type"@)
            == Some("integer"@) && property_schema(p).field_whole("minimum"@) == Some(minimum),
{
    reveal_strlit("type");
    reveal_strlit("description");
    reveal_strlit("items");
    reveal_strlit("minimum");
    reveal_with_fuel(find_field, 4);
    assert("type"@.len() == 4 && "description"@.len() == 11 && "items"@.len() == 5);
    assert("minimum"@.len() == 7);
    match p.kind {
        PropertyKind::Text => {},
        PropertyKind::Texts => {
            let items = JsonView::Object(seq![("type"@, JsonView::Text("string"@))]);
            assert(items.field("type"@) == Some(JsonView::Text("string"@)));
            assert(property_schema(p).field("items"@) == Some(items));
        },
        PropertyKind::Whole { minimum } => {
            assert(property_schema(p).field("minimum"@) == Some(JsonView::Whole(minimum)));
        },
    }
}

/// The property at `i` of the tool has this name and is of this kind.
pub open spec fn takes(kind: ToolKind, i: int, name: Seq<char>, what: PropertyKind) -> bool {
    properties_of(kind)[i].name == name && properties_of(kind)[i].kind == what
}

/// What each tool takes, in order, and of what kind it is.
pub proof fn law_what_tools_take(kind: ToolKind)
    ensures
        ({
            &&& kind is Grep ==> properties_of(kind).len() == 4
                && takes(kind, 0, "query"@, PropertyKind::Text)
                && takes(kind, 1, "needle"@, PropertyKind::Text)
                && takes(kind, 2, "maxResults"@, PropertyKind::Whole { minimum: 1 })
                && takes(kind, 3, "offset"@, PropertyKind::Whole { minimum: 0 })
            &&& kind is MultiGrep ==> properties_of(kind).len() == 4
                && takes(kind, 0, "queries"@, PropertyKind::Texts)
                && takes(kind, 1, "patterns"@, PropertyKind::Texts)
                && takes(kind, 2, "maxResults"@, PropertyKind::Whole { minimum: 1 })
                && takes(kind, 3, "limit"@, PropertyKind::Whole { minimum: 1 })
            &&& kind is Glob ==> properties_of(kind).len() == 3
                && takes(kind, 0, "pattern"@, PropertyKind::Text)
                && takes(kind, 1, "maxResults"@, PropertyKind::Whole { minimum: 1 })
                && takes(kind, 2, "offset"@, PropertyKind::Whole { minimum: 0 })
            &&& kind is Find ==> properties_of(kind).len() == 3
                && takes(kind, 0, "query"@, PropertyKind::Text)
                && takes(kind, 1, "needle"@, PropertyKind::Text)
                && takes(kind, 2, "maxResults"@, PropertyKind::Whole { minimum: 1 })
            &&& kind is Read ==> properties_of(kind).len() == 2
                && takes(kind, 0, "path"@, PropertyKind::Text)
                && takes(kind, 1, "maxTokens"@, PropertyKind::Whole { minimum: 1 })
            &&& kind is Outline ==> properties_of(kind).len() == 1
                && takes(kind, 0, "path"@, PropertyKind::Text)
            &&& kind is Symbol ==> properties_of(kind).len() == 2
                && takes(kind, 0, "name"@, PropertyKind::Text)
                && takes(kind, 1, "maxResults"@, PropertyKind::Whole { minimum: 1 })
            &&& kind is Callers ==> properties_of(kind).len() == 2
                && takes(kind, 0, "name"@, PropertyKind::Text)
                && takes(kind, 1, "maxResults"@, PropertyKind::Whole { minimum: 1 })
            &&& kind is Callees ==> properties_of(kind).len() == 2
                && takes(kind, 0, "name"@, PropertyKind::Text)
                && takes(kind, 1, "maxResults"@, PropertyKind::Whole { minimum: 1 })
            &&& kind is Refs ==> properties_of(kind).len() == 2
                && takes(kind, 0, "name"@, PropertyKind::Text)
                && takes(kind, 1, "maxResults"@, PropertyKind::Whole { minimum: 1 })
            &&& kind is Flow ==> properties_of(kind).len() == 2
                && takes(kind, 0, "name"@, PropertyKind::Text)
                && takes(kind, 1, "maxResults"@, PropertyKind::Whole { minimum: 1 })
            &&& kind is Siblings ==> properties_of(kind).len() == 2
                && takes(kind, 0, "name"@, PropertyKind::Text)
                && takes(kind, 1, "maxResults"@, PropertyKind::Whole { minimum: 1 })
            &&& kind is Deps ==> properties_of(kind).len() == 1
                && takes(kind, 0, "path"@, PropertyKind::Text)
            &&& kind is Impact ==> properties_of(kind).len() == 2
                && takes(kind, 0, "name"@, PropertyKind::Text)
                && takes(kind, 1, "maxResults"@, PropertyKind::Whole { minimum: 1 })
            &&& kind is FileMap ==> properties_of(kind).len() == 1
                && takes(kind, 0, "depth"@, PropertyKind::Whole { minimum: 1 })
            &&& kind is Overview ==> properties_of(kind).len() == 1
                && takes(kind, 0, "limit"@, PropertyKind::Whole { minimum: 1 })
            &&& kind is Dispatch ==> properties_of(kind).len() == 1
                && takes(kind, 0, "query"@, PropertyKind::Text)
        }),
{
}

/// What each tool says it is for.
pub proof fn law_what_tools_are_for(kind: ToolKind)
    ensures
        offered(kind).name == name_of(kind),
        ({
            &&& kind is Grep ==> offered(kind).description
                == "Search file contents (replaces Grep). Plain / regex / fuzzy auto-detect."@
            &&& kind is MultiGrep ==> offered(kind).description
                == "OR-logic multi-pattern content search via SIMD Aho-Corasick. Accepts `queries` or `patterns`."@
            &&& kind is Glob ==> offered(kind).description
                == "Match files by glob pattern (replaces Glob)."@
            &&& kind is Find ==> offered(kind).description
                == "Fuzzy file path search."@
            &&& kind is Read ==> offered(kind).description
                == "Read a file with token-budget aware truncation (replaces Read)."@
            &&& kind is Outline ==> offered(kind).description
                == "Structural outline of a file (functions, classes, top-level decls)."@
            &&& kind is Symbol ==> offered(kind).description
                == "Look up symbol definitions across the workspace."@
            &&& kind is Callers ==> offered(kind).description
                == "Find call sites of a symbol."@
            &&& kind is Callees ==> offered(kind).description
                == "List symbols referenced inside the body of a definition."@
            &&& kind is Refs ==> offered(kind).description
                == "Definitions plus single-hop usages of a symbol."@
            &&& kind is Flow ==> offered(kind).description
                == "Drill-down envelope per definition (def + body + callees + callers)."@
            &&& kind is Siblings ==> offered(kind).description
                == "Peers of a symbol in its parent scope."@
            &&& kind is Deps ==> offered(kind).description
                == "A file's imports plus the workspace files that depend on it."@
            &&& kind is Impact ==> offered(kind).description
                == "Rank workspace files by how much they'd be affected if `name` changed."@
            &&& kind is FileMap ==> offered(kind).description
                == "Workspace tree annotated with file count and per-directory token estimate."@
            &&& kind is Overview ==> offered(kind).description
                == "High-signal repo summary: languages, top-defined symbols, entry-point candidates."@
            &&& kind is Dispatch ==> offered(kind).description
                == "Auto-classify a free-form query."@
        }),
{
}

} // verus!
