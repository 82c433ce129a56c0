//! The answers of tools, as JSON.

use vstd::prelude::*;

use crate::callees::CalleeHit;
use crate::callees::CalleeView;
use crate::callees::callee_views;
use crate::json::Json;
use crate::json::JsonView;
use crate::json::field_views;
use crate::json::json_views;
use crate::json::lemma_field_at;
use crate::line_search::LineHit;
use crate::line_search::LineHitView;
use crate::line_search::line_views;
use crate::pages::at_most;
use crate::pages::first_of;
use crate::sections::excerpt_of;
use crate::sections::read_section_excerpt;
use crate::tally::Tally;
use crate::tally::law_ranking;
use crate::tally::occurrences;
use crate::tally::outranks;
use crate::tally::rank;
use crate::tally::ranked;
use crate::tally::tallied;
use crate::tally::tally;
use crate::tally::tally_views;
use crate::text::text_before;
use crate::text::texts;
use crate::tools::field;
use crate::tree::SiblingHit;
use crate::tree::SiblingView;
use crate::tree::sibling_views;

verus! {

/// A programming language.
#[derive(Debug, PartialEq, Eq, Structural, Clone, Copy)]
pub enum Lang {
    Rust,
    Python,
    JavaScript,
    TypeScript,
    Tsx,
    Go,
    Java,
    C,
    Cpp,
    CSharp,
    Ruby,
    Php,
    Swift,
    Kotlin,
    Scala,
    Elixir,
    Verse,
    Dockerfile,
    Make,
}

/// How a language is called.
pub open spec fn label_of(lang: Lang) -> Seq<char> {
    match lang {
        Lang::Rust => "rust"@,
        Lang::Python => "python"@,
        Lang::JavaScript => "javascript"@,
        Lang::TypeScript => "typescript"@,
        Lang::Tsx => "tsx"@,
        Lang::Go => "go"@,
        Lang::Java => "java"@,
        Lang::C => "c"@,
        Lang::Cpp => "cpp"@,
        Lang::CSharp => "csharp"@,
        Lang::Ruby => "ruby"@,
        Lang::Php => "php"@,
        Lang::Swift => "swift"@,
        Lang::Kotlin => "kotlin"@,
        Lang::Scala => "scala"@,
        Lang::Elixir => "elixir"@,
        Lang::Verse => "verse"@,
        Lang::Dockerfile => "dockerfile"@,
        Lang::Make => "make"@,
    }
}

/// How a language is called.
pub fn lang_label(lang: Lang) -> (res: &'static str)
    ensures
        res@ == label_of(lang),
{
    match lang {
        Lang::Rust => "rust",
        Lang::Python => "python",
        Lang::JavaScript => "javascript",
        Lang::TypeScript => "typescript",
        Lang::Tsx => "tsx",
        Lang::Go => "go",
        Lang::Java => "java",
        Lang::C => "c",
        Lang::Cpp => "cpp",
        Lang::CSharp => "csharp",
        Lang::Ruby => "ruby",
        Lang::Php => "php",
        Lang::Swift => "swift",
        Lang::Kotlin => "kotlin",
        Lang::Scala => "scala",
        Lang::Elixir => "elixir",
        Lang::Verse => "verse",
        Lang::Dockerfile => "dockerfile",
        Lang::Make => "make",
    }
}

/// How the languages of files are called.
pub open spec fn labels_of(langs: Seq<Lang>) -> Seq<Seq<char>> {
    langs.map_values(|l: Lang| label_of(l))
}

/// A label and a count, as a list of two.
pub open spec fn pair_json(c: (Seq<char>, int)) -> JsonView {
    JsonView::List(seq![JsonView::Text(c.0), JsonView::Whole(c.1 as u64)])
}

/// Labels and counts.
pub open spec fn pairs_json(counts: Seq<(Seq<char>, int)>) -> Seq<JsonView> {
    counts.map_values(|c: (Seq<char>, int)| pair_json(c))
}

/// The overview of a workspace: how many files there are of each language, and
/// the `limit` names with the most definitions.
pub open spec fn overview_of(langs: Seq<Lang>, names: Seq<Seq<char>>, limit: usize) -> JsonView {
    JsonView::Object(
        seq![
            ("languages"@, JsonView::List(pairs_json(tallied(labels_of(langs))))),
            ("top_symbols_limit"@, JsonView::Whole(limit as u64)),
            (
                "top_symbols"@,
                JsonView::List(pairs_json(at_most(ranked(tallied(names)), limit as int))),
            ),
        ],
    )
}

/// Labels and counts.
fn tallies_json(counts: &Vec<Tally>, limit: usize) -> (res: Json)
    ensures
        res@ == JsonView::List(pairs_json(at_most(tally_views(counts@), limit as int))),
{
    let ghost all = tally_views(counts@);
    let ghost part = at_most(all, limit as int);
    let ghost wanted = pairs_json(part);
    assert(all.len() == counts@.len());
    let mut items: Vec<Json> = Vec::new();
    let mut k: usize = 0;
    while k < counts.len() && k < limit
        invariant
            k <= counts@.len(),
            k <= limit,
            all == tally_views(counts@),
            all.len() == counts@.len(),
            part == at_most(all, limit as int),
            wanted == pairs_json(part),
            items@.len() == k,
            forall|m: int| 0 <= m < k ==> (#[trigger] items@[m])@ == wanted[m],
        decreases counts@.len() - k,
    {
        let c = &counts[k];
        let pair: Vec<Json> = vec![Json::text(c.name.as_str()), Json::Whole(c.count as u64)];
        assert(part[k as int] == (c.name@, c.count as int));
        assert(json_views(pair@) =~= seq![
            JsonView::Text(c.name@),
            JsonView::Whole(c.count as u64),
        ]);
        items.push(Json::list(pair));
        k = k + 1;
    }
    assert(json_views(items@) =~= wanted);
    Json::list(items)
}

/// The overview of a workspace with files in the given languages and definitions
/// of the given names, one for each definition.
pub fn overview_json(langs: &Vec<Lang>, names: &Vec<String>, limit: usize) -> (res: Json)
    ensures
        res@ == overview_of(langs@, texts(names@), limit),
{
    let mut labels: Vec<String> = Vec::new();
    let mut i: usize = 0;
    while i < langs.len()
        invariant
            i <= langs@.len(),
            labels@.len() == i,
            forall|k: int| 0 <= k < i ==> (#[trigger] labels@[k])@ == label_of(langs@[k]),
        decreases langs@.len() - i,
    {
        labels.push(lang_label(langs[i]).to_owned());
        i = i + 1;
    }
    assert(texts(labels@) =~= labels_of(langs@));
    let counts = tally(&labels);
    assert(tally_views(counts@).len() == counts@.len());
    let languages = tallies_json(&counts, counts.len());
    let top = tallies_json(&rank(&tally(names)), limit);
    let fields: Vec<(String, Json)> = vec![
        field("languages", languages),
        field("top_symbols_limit", Json::Whole(limit as u64)),
        field("top_symbols", top),
    ];
    assert(field_views(fields@) =~= overview_of(langs@, texts(names@), limit)->Object_0);
    Json::object(fields)
}

/// A file and how many of the calls of a symbol stand in it, as JSON.
pub open spec fn impact_card(c: (Seq<char>, int)) -> JsonView {
    JsonView::Object(
        seq![("path"@, JsonView::Text(c.0)), ("weight"@, JsonView::Whole(c.1 as u64))],
    )
}

/// The files with calls of a symbol, with how many there are: those with the most
/// first, and else by path.
pub open spec fn affected(hits: Seq<LineHitView>) -> Seq<(Seq<char>, int)> {
    ranked(tallied(hits.map_values(|h: LineHitView| h.path)))
}

/// The first `limit` of the files with calls of a symbol.
pub open spec fn impact_of(hits: Seq<LineHitView>, limit: usize) -> JsonView {
    JsonView::List(
        at_most(affected(hits), limit as int).map_values(
            |c: (Seq<char>, int)| impact_card(c),
        ),
    )
}

/// The first `limit` of the files with calls of a symbol, with how many there are:
/// those with the most first, and else by path.
pub fn impact_json(hits: &Vec<LineHit>, limit: usize) -> (res: Json)
    ensures
        res@ == impact_of(line_views(hits@), limit),
{
    let mut paths: Vec<String> = Vec::new();
    let mut i: usize = 0;
    while i < hits.len()
        invariant
            i <= hits@.len(),
            paths@.len() == i,
            forall|k: int| 0 <= k < i ==> (#[trigger] paths@[k])@ == hits@[k]@.path,
        decreases hits@.len() - i,
    {
        paths.push(hits[i].path.clone());
        i = i + 1;
    }
    assert(texts(paths@) =~= line_views(hits@).map_values(|h: LineHitView| h.path));
    let counts = rank(&tally(&paths));
    let ghost all = tally_views(counts@);
    let ghost part = at_most(all, limit as int);
    let ghost wanted = part.map_values(|c: (Seq<char>, int)| impact_card(c));
    assert(all.len() == counts@.len());
    let mut items: Vec<Json> = Vec::new();
    let mut k: usize = 0;
    while k < counts.len() && k < limit
        invariant
            k <= counts@.len(),
            k <= limit,
            all == tally_views(counts@),
            all.len() == counts@.len(),
            part == at_most(all, limit as int),
            wanted == part.map_values(|c: (Seq<char>, int)| impact_card(c)),
            items@.len() == k,
            forall|m: int| 0 <= m < k ==> (#[trigger] items@[m])@ == wanted[m],
        decreases counts@.len() - k,
    {
        let c = &counts[k];
        assert(part[k as int] == (c.name@, c.count as int));
        let fields: Vec<(String, Json)> = vec![
            field("path", Json::text(c.name.as_str())),
            field("weight", Json::Whole(c.count as u64)),
        ];
        assert(field_views(fields@) =~= impact_card((c.name@, c.count as int))->Object_0);
        items.push(Json::object(fields));
        k = k + 1;
    }
    assert(json_views(items@) =~= wanted);
    Json::list(items)
}

/// The files that a change of a symbol affects are ranked: one stands before
/// another only if it has more calls of the symbol, or as many and a path that
/// comes first. Its weight is how many of the calls stand in it.
pub proof fn law_impact_is_ranked(hits: Seq<LineHitView>)
    ensures
        forall|i: int, j: int|
            0 <= i < j < affected(hits).len() ==> outranks(
                #[trigger] affected(hits)[i],
                #[trigger] affected(hits)[j],
            ),
        affected(hits).to_multiset() == tallied(
            hits.map_values(|h: LineHitView| h.path),
        ).to_multiset(),
        forall|i: int|
            0 <= i < affected(hits).len() ==> (#[trigger] affected(hits)[i]).1 == occurrences(
                hits.map_values(|h: LineHitView| h.path),
                affected(hits)[i].0,
            ),
{
    law_ranking(hits.map_values(|h: LineHitView| h.path));
}

/// Where a symbol is defined.
#[derive(Debug)]
pub struct SymbolLocation {
    /// The path of the file.
    pub path: String,
    /// The first line.
    pub line: u32,
    /// The last line.
    pub end_line: u32,
    /// What kind of definition it is.
    pub kind: Json,
    /// How much it counts.
    pub weight: Json,
}

/// A place of a definition as JSON.
pub open spec fn location_fields(h: SymbolLocation) -> Seq<(Seq<char>, JsonView)> {
    seq![
        ("path"@, JsonView::Text(h.path@)),
        ("line"@, JsonView::Whole(h.line as u64)),
        ("end_line"@, JsonView::Whole(h.end_line as u64)),
        ("kind"@, h.kind@),
        ("weight"@, h.weight@),
    ]
}

/// A place of a definition as fields.
fn location_json(h: SymbolLocation) -> (res: Vec<(String, Json)>)
    ensures
        field_views(res@) == location_fields(h),
{
    let fields: Vec<(String, Json)> = vec![
        field("path", Json::text(h.path.as_str())),
        field("line", Json::Whole(h.line as u64)),
        field("end_line", Json::Whole(h.end_line as u64)),
        field("kind", h.kind),
        field("weight", h.weight),
    ];
    assert(field_views(fields@) =~= location_fields(h));
    fields
}

/// The places of definitions as JSON.
pub open spec fn locations_of(hits: Seq<SymbolLocation>) -> Seq<JsonView> {
    hits.map_values(|h: SymbolLocation| JsonView::Object(location_fields(h)))
}

/// The places of definitions as JSON.
pub fn symbol_locs_to_json(hits: Vec<SymbolLocation>) -> (res: Json)
    ensures
        res@ == JsonView::List(locations_of(hits@)),
{
    let ghost all = hits@;
    let mut left = hits;
    let mut items: Vec<Json> = Vec::new();
    while left.len() > 0
        invariant
            left@.len() <= all.len(),
            left@ == all.take(left@.len() as int),
            json_views(items@) == locations_of(all.skip(left@.len() as int)),
        decreases left@.len(),
    {
        let ghost n = left@.len() as int;
        let ghost before = items@;
        match left.pop() {
            Some(h) => {
                assert(h == all[n - 1]);
                let item = Json::object(location_json(h));
                items.insert(0, item);
                assert(json_views(items@) =~= seq![item@] + json_views(before));
                assert(locations_of(all.skip(n - 1)) =~= seq![item@] + locations_of(all.skip(n)));
                assert(left@ =~= all.take(n - 1));
            },
            None => {},
        }
    }
    assert(all.skip(0) =~= all);
    Json::list(items)
}

/// The first `limit` places of a definition as JSON.
pub fn symbols_json(hits: Vec<SymbolLocation>, limit: usize) -> (res: Json)
    ensures
        res@ == JsonView::List(locations_of(at_most(hits@, limit as int))),
{
    symbol_locs_to_json(first_of(hits, limit))
}

/// A named place of a definition as JSON.
pub open spec fn named_location(p: (String, SymbolLocation)) -> JsonView {
    JsonView::Object(seq![("name"@, JsonView::Text(p.0@))] + location_fields(p.1))
}

/// Named places of definitions as JSON.
pub open spec fn named_locations(hits: Seq<(String, SymbolLocation)>) -> Seq<JsonView> {
    hits.map_values(|p: (String, SymbolLocation)| named_location(p))
}

/// Named places of definitions as JSON.
pub fn symbol_glob_to_json(hits: Vec<(String, SymbolLocation)>) -> (res: Json)
    ensures
        res@ == JsonView::List(named_locations(hits@)),
{
    let ghost all = hits@;
    let mut left = hits;
    let mut items: Vec<Json> = Vec::new();
    while left.len() > 0
        invariant
            left@.len() <= all.len(),
            left@ == all.take(left@.len() as int),
            json_views(items@) == named_locations(all.skip(left@.len() as int)),
        decreases left@.len(),
    {
        let ghost n = left@.len() as int;
        let ghost before = items@;
        match left.pop() {
            Some((name, h)) => {
                assert((name, h) == all[n - 1]);
                let mut fields: Vec<(String, Json)> = vec![field("name", Json::Text(name))];
                let mut rest = location_json(h);
                let ghost place = rest@;
                fields.append(&mut rest);
                assert(field_views(fields@) =~= seq![("name"@, JsonView::Text(name@))]
                    + field_views(place));
                let item = Json::object(fields);
                items.insert(0, item);
                assert(json_views(items@) =~= seq![item@] + json_views(before));
                assert(named_locations(all.skip(n - 1)) =~= seq![item@] + named_locations(
                    all.skip(n),
                ));
                assert(left@ =~= all.take(n - 1));
            },
            None => {},
        }
    }
    assert(all.skip(0) =~= all);
    Json::list(items)
}

/// A hit as JSON.
pub open spec fn hit_json(h: LineHitView) -> JsonView {
    JsonView::Object(
        seq![
            ("path"@, JsonView::Text(h.path)),
            ("line"@, JsonView::Whole(h.line as u64)),
            ("text"@, JsonView::Text(h.text)),
        ],
    )
}

/// Hits as JSON.
pub fn line_hits_json(hits: &Vec<LineHit>) -> (res: Json)
    ensures
        res@ == JsonView::List(line_views(hits@).map_values(|h: LineHitView| hit_json(h))),
{
    let ghost wanted = line_views(hits@).map_values(|h: LineHitView| hit_json(h));
    let mut items: Vec<Json> = Vec::new();
    let mut i: usize = 0;
    while i < hits.len()
        invariant
            i <= hits@.len(),
            wanted == line_views(hits@).map_values(|h: LineHitView| hit_json(h)),
            items@.len() == i,
            forall|m: int| 0 <= m < i ==> (#[trigger] items@[m])@ == wanted[m],
        decreases hits@.len() - i,
    {
        let h = &hits[i];
        let fields: Vec<(String, Json)> = vec![
            field("path", Json::text(h.path.as_str())),
            field("line", Json::Whole(h.line as u64)),
            field("text", Json::text(h.text.as_str())),
        ];
        assert(field_views(fields@) =~= hit_json(h@)->Object_0);
        items.push(Json::object(fields));
        i = i + 1;
    }
    assert(json_views(items@) =~= wanted);
    Json::list(items)
}

/// A callee as JSON.
pub open spec fn callee_json(h: CalleeView) -> JsonView {
    JsonView::Object(
        seq![("name"@, JsonView::Text(h.name)), ("line"@, JsonView::Whole(h.line as u64))],
    )
}

/// Callees as JSON.
pub fn callees_json(hits: &Vec<CalleeHit>) -> (res: Json)
    ensures
        res@ == JsonView::List(callee_views(hits@).map_values(|h: CalleeView| callee_json(h))),
{
    let ghost wanted = callee_views(hits@).map_values(|h: CalleeView| callee_json(h));
    let mut items: Vec<Json> = Vec::new();
    let mut i: usize = 0;
    while i < hits.len()
        invariant
            i <= hits@.len(),
            wanted == callee_views(hits@).map_values(|h: CalleeView| callee_json(h)),
            items@.len() == i,
            forall|m: int| 0 <= m < i ==> (#[trigger] items@[m])@ == wanted[m],
        decreases hits@.len() - i,
    {
        let h = &hits[i];
        let fields: Vec<(String, Json)> = vec![
            field("name", Json::text(h.name.as_str())),
            field("line", Json::Whole(h.line as u64)),
        ];
        assert(field_views(fields@) =~= callee_json(h@)->Object_0);
        items.push(Json::object(fields));
        i = i + 1;
    }
    assert(json_views(items@) =~= wanted);
    Json::list(items)
}

/// A sibling as JSON.
pub open spec fn sibling_json(h: SiblingView) -> JsonView {
    JsonView::Object(
        seq![
            ("name"@, JsonView::Text(h.name)),
            ("kind"@, JsonView::Text(h.kind)),
            ("path"@, JsonView::Text(h.path)),
            ("line"@, JsonView::Whole(h.line as u64)),
        ],
    )
}

/// Siblings as JSON.
pub fn siblings_json(hits: &Vec<SiblingHit>) -> (res: Json)
    ensures
        res@ == JsonView::List(sibling_views(hits@).map_values(|h: SiblingView| sibling_json(h))),
{
    let ghost wanted = sibling_views(hits@).map_values(|h: SiblingView| sibling_json(h));
    let mut items: Vec<Json> = Vec::new();
    let mut i: usize = 0;
    while i < hits.len()
        invariant
            i <= hits@.len(),
            wanted == sibling_views(hits@).map_values(|h: SiblingView| sibling_json(h)),
            items@.len() == i,
            forall|m: int| 0 <= m < i ==> (#[trigger] items@[m])@ == wanted[m],
        decreases hits@.len() - i,
    {
        let h = &hits[i];
        let fields: Vec<(String, Json)> = vec![
            field("name", Json::text(h.name.as_str())),
            field("kind", Json::text(h.kind.as_str())),
            field("path", Json::text(h.path.as_str())),
            field("line", Json::Whole(h.line as u64)),
        ];
        assert(field_views(fields@) =~= sibling_json(h@)->Object_0);
        items.push(Json::object(fields));
        i = i + 1;
    }
    assert(json_views(items@) =~= wanted);
    Json::list(items)
}

/// Texts as JSON.
pub fn texts_json(all: &Vec<String>) -> (res: Json)
    ensures
        res@ == JsonView::List(texts(all@).map_values(|t: Seq<char>| JsonView::Text(t))),
{
    let ghost wanted = texts(all@).map_values(|t: Seq<char>| JsonView::Text(t));
    let mut items: Vec<Json> = Vec::new();
    let mut i: usize = 0;
    while i < all.len()
        invariant
            i <= all@.len(),
            wanted == texts(all@).map_values(|t: Seq<char>| JsonView::Text(t)),
            items@.len() == i,
            forall|m: int| 0 <= m < i ==> (#[trigger] items@[m])@ == wanted[m],
        decreases all@.len() - i,
    {
        items.push(Json::text(all[i].as_str()));
        i = i + 1;
    }
    assert(json_views(items@) =~= wanted);
    Json::list(items)
}

/// The answer of a search for paths: the first `limit` exact matches, or else
/// of the fuzzy ones.
pub fn find_json(exact: Vec<Json>, fuzzy: Vec<Json>, limit: usize) -> (res: Json)
    ensures
        res@ == JsonView::List(
            at_most(
                json_views(
                    if exact@.len() > 0 {
                        exact@
                    } else {
                        fuzzy@
                    },
                ),
                limit as int,
            ),
        ),
{
    let ghost found = if exact@.len() > 0 {
        exact@
    } else {
        fuzzy@
    };
    let hits = if exact.len() > 0 {
        first_of(exact, limit)
    } else {
        first_of(fuzzy, limit)
    };
    assert(json_views(hits@) =~= at_most(json_views(found), limit as int));
    Json::list(hits)
}

/// The definitions and the usages of a symbol.
pub fn refs_json(definitions: Vec<SymbolLocation>, usages: &Vec<LineHit>) -> (res: Json)
    ensures
        res@ == JsonView::Object(
            seq![
                ("definitions"@, JsonView::List(locations_of(definitions@))),
                (
                    "usages"@,
                    JsonView::List(
                        line_views(usages@).map_values(|h: LineHitView| hit_json(h)),
                    ),
                ),
            ],
        ),
{
    let ghost wanted = seq![
        ("definitions"@, JsonView::List(locations_of(definitions@))),
        (
            "usages"@,
            JsonView::List(line_views(usages@).map_values(|h: LineHitView| hit_json(h))),
        ),
    ];
    let fields: Vec<(String, Json)> = vec![
        field("definitions", symbol_locs_to_json(definitions)),
        field("usages", line_hits_json(usages)),
    ];
    assert(field_views(fields@) =~= wanted);
    Json::object(fields)
}

/// A definition that is shown with its body, and what it refers to and is referred
/// to by.
#[derive(Debug)]
pub struct FlowDefinition {
    /// The path of the file.
    pub path: String,
    /// The first line.
    pub line: u32,
    /// The last line.
    pub end_line: u32,
    /// The content of the file, if it could be read.
    pub content: Option<String>,
    /// The symbols that its body refers to.
    pub callees: Vec<CalleeHit>,
    /// The lines with calls of it.
    pub callers: Vec<LineHit>,
}

/// A definition with the first lines of its body, its callees and its callers, as
/// JSON.
pub open spec fn flow_card(d: FlowDefinition) -> JsonView {
    JsonView::Object(
        seq![
            ("path"@, JsonView::Text(d.path@)),
            ("line"@, JsonView::Whole(d.line as u64)),
            ("end_line"@, JsonView::Whole(d.end_line as u64)),
            ("body"@, JsonView::Text(excerpt_of(d.content, d.line, d.end_line, 60))),
            (
                "callees"@,
                JsonView::List(
                    callee_views(d.callees@).map_values(|h: CalleeView| callee_json(h)),
                ),
            ),
            (
                "callers"@,
                JsonView::List(line_views(d.callers@).map_values(|h: LineHitView| hit_json(h))),
            ),
        ],
    )
}

/// The first `limit` definitions with the first lines of their bodies, their
/// callees and their callers, as JSON.
pub fn flow_json(definitions: &Vec<FlowDefinition>, limit: usize) -> (res: Json)
    ensures
        res@ == JsonView::List(
            at_most(definitions@, limit as int).map_values(|d: FlowDefinition| flow_card(d)),
        ),
{
    let ghost part = at_most(definitions@, limit as int);
    let ghost wanted = part.map_values(|d: FlowDefinition| flow_card(d));
    let mut items: Vec<Json> = Vec::new();
    let mut i: usize = 0;
    while i < definitions.len() && i < limit
        invariant
            i <= definitions@.len(),
            i <= limit,
            part == at_most(definitions@, limit as int),
            wanted == part.map_values(|d: FlowDefinition| flow_card(d)),
            items@.len() == i,
            forall|m: int| 0 <= m < i ==> (#[trigger] items@[m])@ == wanted[m],
        decreases definitions@.len() - i,
    {
        let d = &definitions[i];
        assert(part[i as int] == *d);
        let body = read_section_excerpt(&d.content, d.line, d.end_line, 60);
        let fields: Vec<(String, Json)> = vec![
            field("path", Json::text(d.path.as_str())),
            field("line", Json::Whole(d.line as u64)),
            field("end_line", Json::Whole(d.end_line as u64)),
            field("body", Json::Text(body)),
            field("callees", callees_json(&d.callees)),
            field("callers", line_hits_json(&d.callers)),
        ];
        assert(field_views(fields@) =~= flow_card(*d)->Object_0);
        items.push(Json::object(fields));
        i = i + 1;
    }
    assert(json_views(items@) =~= wanted);
    Json::list(items)
}

/// What a free-form query turned out to be.
#[derive(Debug)]
pub enum Dispatched {
    /// A symbol.
    Symbol(Vec<SymbolLocation>),
    /// A pattern for symbols.
    SymbolGlob(Vec<(String, SymbolLocation)>),
    /// The path of a file.
    FilePath(String),
    /// A pattern for paths.
    Glob(String),
    /// None of these.
    ContentFallback,
}

/// What a free-form query turned out to be, as JSON.
pub open spec fn dispatch_fields(d: Dispatched) -> Seq<(Seq<char>, JsonView)> {
    match d {
        Dispatched::Symbol(hits) => seq![
            ("kind"@, JsonView::Text("symbol"@)),
            ("hits"@, JsonView::List(locations_of(hits@))),
        ],
        Dispatched::SymbolGlob(hits) => seq![
            ("kind"@, JsonView::Text("symbol_glob"@)),
            ("hits"@, JsonView::List(named_locations(hits@))),
        ],
        Dispatched::FilePath(path) => seq![
            ("kind"@, JsonView::Text("file_path"@)),
            ("path"@, JsonView::Text(path@)),
        ],
        Dispatched::Glob(pattern) => seq![
            ("kind"@, JsonView::Text("glob"@)),
            ("pattern"@, JsonView::Text(pattern@)),
        ],
        Dispatched::ContentFallback => seq![("kind"@, JsonView::Text("content_fallback"@))],
    }
}

/// What a free-form query turned out to be, as JSON.
pub fn dispatch_json(d: Dispatched) -> (res: Json)
    ensures
        res@ == JsonView::Object(dispatch_fields(d)),
{
    let ghost wanted = dispatch_fields(d);
    let fields: Vec<(String, Json)> = match d {
        Dispatched::Symbol(hits) => vec![
            field("kind", Json::text("symbol")),
            field("hits", symbol_locs_to_json(hits)),
        ],
        Dispatched::SymbolGlob(hits) => vec![
            field("kind", Json::text("symbol_glob")),
            field("hits", symbol_glob_to_json(hits)),
        ],
        Dispatched::FilePath(path) => vec![
            field("kind", Json::text("file_path")),
            field("path", Json::Text(path)),
        ],
        Dispatched::Glob(pattern) => vec![
            field("kind", Json::text("glob")),
            field("pattern", Json::Text(pattern)),
        ],
        Dispatched::ContentFallback => vec![field("kind", Json::text("content_fallback"))],
    };
    assert(field_views(fields@) =~= wanted);
    Json::object(fields)
}

/// Each language has its own label.
pub proof fn law_labels(a: Lang, b: Lang)
    ensures
        label_of(a) == label_of(b) ==> a == b,
        ({
            &&& a is Rust ==> label_of(a) == "rust"@
            &&& a is Python ==> label_of(a) == "python"@
            &&& a is JavaScript ==> label_of(a) == "javascript"@
            &&& a is TypeScript ==> label_of(a) == "typescript"@
            &&& a is Tsx ==> label_of(a) == "tsx"@
            &&& a is Go ==> label_of(a) == "go"@
            &&& a is Java ==> label_of(a) == "java"@
            &&& a is C ==> label_of(a) == "c"@
            &&& a is Cpp ==> label_of(a) == "cpp"@
            &&& a is CSharp ==> label_of(a) == "csharp"@
            &&& a is Ruby ==> label_of(a) == "ruby"@
            &&& a is Php ==> label_of(a) == "php"@
            &&& a is Swift ==> label_of(a) == "swift"@
            &&& a is Kotlin ==> label_of(a) == "kotlin"@
            &&& a is Scala ==> label_of(a) == "scala"@
            &&& a is Elixir ==> label_of(a) == "elixir"@
            &&& a is Verse ==> label_of(a) == "verse"@
            &&& a is Dockerfile ==> label_of(a) == "dockerfile"@
            &&& a is Make ==> label_of(a) == "make"@
        }),
{
    reveal_strlit("rust");
    reveal_strlit("python");
    reveal_strlit("javascript");
    reveal_strlit("typescript");
    reveal_strlit("tsx");
    reveal_strlit("go");
    reveal_strlit("java");
    reveal_strlit("c");
    reveal_strlit("cpp");
    reveal_strlit("csharp");
    reveal_strlit("ruby");
    reveal_strlit("php");
    reveal_strlit("swift");
    reveal_strlit("kotlin");
    reveal_strlit("scala");
    reveal_strlit("elixir");
    reveal_strlit("verse");
    reveal_strlit("dockerfile");
    reveal_strlit("make");
    assert("rust"@.len() == 4 && "rust"@[0] == 'r');
    assert("python"@.len() == 6 && "python"@[0] == 'p');
    assert("javascript"@.len() == 10 && "javascript"@[0] == 'j');
    assert("typescript"@.len() == 10 && "typescript"@[0] == 't');
    assert("tsx"@.len() == 3 && "tsx"@[0] == 't');
    assert("go"@.len() == 2 && "go"@[0] == 'g');
    assert("java"@.len() == 4 && "java"@[0] == 'j');
    assert("c"@.len() == 1 && "c"@[0] == 'c');
    assert("cpp"@.len() == 3 && "cpp"@[0] == 'c');
    assert("csharp"@.len() == 6 && "csharp"@[0] == 'c');
    assert("ruby"@.len() == 4 && "ruby"@[0] == 'r');
    assert("php"@.len() == 3 && "php"@[0] == 'p');
    assert("swift"@.len() == 5 && "swift"@[0] == 's');
    assert("kotlin"@.len() == 6 && "kotlin"@[0] == 'k');
    assert("scala"@.len() == 5 && "scala"@[0] == 's');
    assert("elixir"@.len() == 6 && "elixir"@[0] == 'e');
    assert("verse"@.len() == 5 && "verse"@[0] == 'v');
    assert("dockerfile"@.len() == 10 && "dockerfile"@[0] == 'd');
    assert("make"@.len() == 4 && "make"@[0] == 'm');
    assert("scala"@[1] == 'c' && "swift"@[1] == 'w' && "csharp"@[1] == 's');
    assert("java"@[0] == 'j' && "ruby"@[1] == 'u' && "rust"@[2] == 's' && "ruby"@[2] == 'b');
    assert("php"@[0] == 'p' && "cpp"@[0] == 'c' && "tsx"@[0] == 't');
    assert("python"@[0] == 'p' && "kotlin"@[0] == 'k' && "elixir"@[0] == 'e');
    assert("javascript"@[0] == 'j' && "typescript"@[0] == 't' && "dockerfile"@[0] == 'd');
}

/// The fields of the value, by name: a text, a number or another value.
proof fn lemma_two_fields(a: (Seq<char>, JsonView), b: (Seq<char>, JsonView))
    requires
        a.0 != b.0,
    ensures
        JsonView::Object(seq![a, b]).field(a.0) == Some(a.1),
        JsonView::Object(seq![a, b]).field(b.0) == Some(b.1),
{
    let fields = seq![a, b];
    assert(fields[0] == a && fields[1] == b);
    lemma_field_at(fields, 0);
    lemma_field_at(fields, 1);
}

/// A hit on a line is told by the path, the number of the line and its text, a
/// reference by the name and the line, and a sibling by its name, its kind, the path
/// and the line.
pub proof fn law_hits_are_told(h: LineHitView, c: CalleeView, s: SiblingView)
    requires
        0 <= h.line <= u64::MAX,
        0 <= c.line <= u64::MAX,
    ensures
        hit_json(h).field_text("path"@) == Some(h.path),
        hit_json(h).field_text("text"@) == Some(h.text),
        hit_json(h).field_whole("line"@) matches Some(n) && n == h.line,
        callee_json(c).field_text("name"@) == Some(c.name),
        callee_json(c).field_whole("line"@) matches Some(n) && n == c.line,
        sibling_json(s).field_text("name"@) == Some(s.name),
        sibling_json(s).field_text("kind"@) == Some(s.kind),
        sibling_json(s).field_text("path"@) == Some(s.path),
        sibling_json(s).field_whole("line"@) matches Some(n) && n == s.line,
{
    reveal_strlit("path");
    reveal_strlit("line");
    reveal_strlit("text");
    reveal_strlit("name");
    reveal_strlit("kind");
    assert("path"@[0] == 'p' && "line"@[0] == 'l' && "text"@[0] == 't' && "name"@[0] == 'n'
        && "kind"@[0] == 'k');
    if let JsonView::Object(fields) = hit_json(h) {
        lemma_field_at(fields, 0);
        lemma_field_at(fields, 1);
        lemma_field_at(fields, 2);
    }
    if let JsonView::Object(fields) = callee_json(c) {
        lemma_field_at(fields, 0);
        lemma_field_at(fields, 1);
    }
    if let JsonView::Object(fields) = sibling_json(s) {
        lemma_field_at(fields, 0);
        lemma_field_at(fields, 1);
        lemma_field_at(fields, 2);
        lemma_field_at(fields, 3);
    }
}

/// A definition is told by its path, its first and last line, its kind and its weight,
/// and behind its name where that is not the one asked for.
pub proof fn law_definitions_are_told(name: String, h: SymbolLocation)
    ensures
        ({
            let alone = JsonView::Object(location_fields(h));
            &&& alone.field_text("path"@) == Some(h.path@)
            &&& alone.field_whole("line"@) == Some(h.line as u64)
            &&& alone.field_whole("end_line"@) == Some(h.end_line as u64)
            &&& alone.field("kind"@) == Some(h.kind@)
            &&& alone.field("weight"@) == Some(h.weight@)
        }),
        ({
            let named = named_location((name, h));
            &&& named.field_text("name"@) == Some(name@)
            &&& named.field_text("path"@) == Some(h.path@)
            &&& named.field_whole("line"@) == Some(h.line as u64)
            &&& named.field_whole("end_line"@) == Some(h.end_line as u64)
        }),
{
    reveal_strlit("path");
    reveal_strlit("line");
    reveal_strlit("end_line");
    reveal_strlit("kind");
    reveal_strlit("weight");
    reveal_strlit("name");
    assert("path"@[0] == 'p' && "line"@[0] == 'l' && "end_line"@[0] == 'e' && "kind"@[0] == 'k'
        && "weight"@[0] == 'w' && "name"@[0] == 'n');
    let fields = location_fields(h);
    lemma_field_at(fields, 0);
    lemma_field_at(fields, 1);
    lemma_field_at(fields, 2);
    lemma_field_at(fields, 3);
    lemma_field_at(fields, 4);
    let more = seq![("name"@, JsonView::Text(name@))] + fields;
    assert(more[0].0 == "name"@ && more[1] == fields[0] && more[2] == fields[1] && more[3]
        == fields[2]);
    lemma_field_at(more, 0);
    lemma_field_at(more, 1);
    lemma_field_at(more, 2);
    lemma_field_at(more, 3);
}

/// An overview lists the languages with how many files each has, and the symbols with
/// how often each is defined, the most frequent first and no more than asked for.
pub proof fn law_overview(langs: Seq<Lang>, names: Seq<Seq<char>>, limit: usize, i: int)
    requires
        names.len() <= u64::MAX,
    ensures
        overview_of(langs, names, limit).field_whole("top_symbols_limit"@) == Some(limit as u64),
        overview_of(langs, names, limit).field("languages"@) == Some(
            JsonView::List(pairs_json(tallied(labels_of(langs)))),
        ),
        overview_of(langs, names, limit).field("top_symbols"@) matches Some(JsonView::List(top)) && {
            let all = ranked(tallied(names));
            &&& top.len() == if all.len() <= limit {
                all.len() as int
            } else {
                limit as int
            }
            &&& 0 <= i < top.len() ==> {
                &&& top[i] matches JsonView::List(pair)
                &&& pair.len() == 2
                &&& pair[0] == JsonView::Text(all[i].0)
                &&& pair[1] == JsonView::Whole(occurrences(names, all[i].0) as u64)
            }
        },
{
    reveal_strlit("languages");
    reveal_strlit("top_symbols_limit");
    reveal_strlit("top_symbols");
    assert("languages"@.len() == 9 && "top_symbols_limit"@.len() == 17 && "top_symbols"@.len()
        == 11);
    law_ranking(names);
    if let JsonView::Object(fields) = overview_of(langs, names, limit) {
        lemma_field_at(fields, 0);
        lemma_field_at(fields, 1);
        lemma_field_at(fields, 2);
    }
}

/// The impact of a change lists the files that have a hit, with how many each has, the
/// most affected first, where they are the same by path, and no more than asked for.
pub proof fn law_impact_cards(hits: Seq<LineHitView>, limit: usize, i: int, j: int)
    requires
        0 <= i < j < affected(hits).len(),
        j < limit,
    ensures
        impact_of(hits, limit) matches JsonView::List(cards) && {
            let paths = hits.map_values(|h: LineHitView| h.path);
            let (a, b) = (cards[i].field_text("path"@), cards[j].field_text("path"@));
            &&& j < cards.len() <= limit
            &&& a is Some
            &&& b is Some
            &&& cards[i].field_whole("weight"@) == Some(occurrences(paths, a->0) as u64)
            &&& occurrences(paths, a->0) >= occurrences(paths, b->0)
            &&& occurrences(paths, a->0) == occurrences(paths, b->0) ==> text_before(a->0, b->0)
        },
{
    reveal_strlit("path");
    reveal_strlit("weight");
    assert("path"@.len() == 4 && "weight"@.len() == 6);
    law_impact_is_ranked(hits);
    let all = affected(hits);
    let (a, b) = (all[i], all[j]);
    assert(outranks(a, b));
    lemma_two_fields(("path"@, JsonView::Text(a.0)), ("weight"@, JsonView::Whole(a.1 as u64)));
    lemma_two_fields(("path"@, JsonView::Text(b.0)), ("weight"@, JsonView::Whole(b.1 as u64)));
    if let JsonView::List(cards) = impact_of(hits, limit) {
        assert(cards[i] == impact_card(a));
        assert(cards[j] == impact_card(b));
    }
}

/// A flow tells of each definition where it is, the first sixty of its lines, what it
/// refers to and where it is called.
pub proof fn law_flow_cards(d: FlowDefinition)
    ensures
        flow_card(d).field_text("path"@) == Some(d.path@),
        flow_card(d).field_whole("line"@) == Some(d.line as u64),
        flow_card(d).field_whole("end_line"@) == Some(d.end_line as u64),
        flow_card(d).field_text("body"@) == Some(excerpt_of(d.content, d.line, d.end_line, 60)),
        flow_card(d).field("callees"@) == Some(
            JsonView::List(callee_views(d.callees@).map_values(|h: CalleeView| callee_json(h))),
        ),
        flow_card(d).field("callers"@) == Some(
            JsonView::List(line_views(d.callers@).map_values(|h: LineHitView| hit_json(h))),
        ),
{
    reveal_strlit("path");
    reveal_strlit("line");
    reveal_strlit("end_line");
    reveal_strlit("body");
    reveal_strlit("callees");
    reveal_strlit("callers");
    assert("path"@[0] == 'p' && "line"@[0] == 'l' && "end_line"@[0] == 'e' && "body"@[0] == 'b'
        && "callees"@[0] == 'c' && "callers"@[0] == 'c');
    assert("callees"@[5] == 'e' && "callers"@[5] == 'r');
    if let JsonView::Object(fields) = flow_card(d) {
        lemma_field_at(fields, 0);
        lemma_field_at(fields, 1);
        lemma_field_at(fields, 2);
        lemma_field_at(fields, 3);
        lemma_field_at(fields, 4);
        lemma_field_at(fields, 5);
    }
}

/// What a free query was taken for, and what was found.
pub proof fn law_queries_are_told(d: Dispatched)
    ensures
        ({
            let told = JsonView::Object(dispatch_fields(d));
            match d {
                Dispatched::Symbol(hits) => told.field_text("kind"@) == Some("symbol"@)
                    && told.field("hits"@) == Some(JsonView::List(locations_of(hits@))),
                Dispatched::SymbolGlob(hits) => told.field_text("kind"@) == Some("symbol_glob"@)
                    && told.field("hits"@) == Some(JsonView::List(named_locations(hits@))),
                Dispatched::FilePath(path) => told.field_text("kind"@) == Some("file_path"@)
                    && told.field_text("path"@) == Some(path@),
                Dispatched::Glob(pattern) => told.field_text("kind"@) == Some("glob"@)
                    && told.field_text("pattern"@) == Some(pattern@),
                Dispatched::ContentFallback => told.field_text("kind"@) == Some(
                    "content_fallback"@,
                ),
            }
        }),
{
    reveal_strlit("kind");
    reveal_strlit("hits");
    reveal_strlit("path");
    reveal_strlit("pattern");
    assert("kind"@[0] == 'k' && "hits"@[0] == 'h' && "path"@[0] == 'p' && "pattern"@[0] == 'p');
    let fields = dispatch_fields(d);
    lemma_field_at(fields, 0);
    if fields.len() > 1 {
        lemma_field_at(fields, 1);
    }
}

} // verus!
