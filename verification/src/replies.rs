//! What a tool call is answered, from what was found for it.

use vstd::prelude::*;

use crate::answers::Dispatched;
use crate::answers::FlowDefinition;
use crate::answers::Lang;
use crate::answers::SymbolLocation;
use crate::answers::callee_json;
use crate::answers::callees_json;
use crate::answers::dispatch_fields;
use crate::answers::dispatch_json;
use crate::answers::find_json;
use crate::answers::flow_card;
use crate::answers::flow_json;
use crate::answers::hit_json;
use crate::answers::impact_json;
use crate::answers::impact_of;
use crate::answers::line_hits_json;
use crate::answers::locations_of;
use crate::answers::overview_json;
use crate::answers::overview_of;
use crate::answers::refs_json;
use crate::answers::sibling_json;
use crate::answers::siblings_json;
use crate::answers::symbols_json;
use crate::answers::texts_json;
use crate::callees::CalleeHit;
use crate::callees::CalleeView;
use crate::callees::callee_views;
use crate::calls::CallView;
use crate::calls::ToolCall;
use crate::json::Json;
use crate::json::JsonView;
use crate::json::json_views;
use crate::json::lemma_field_at;
use crate::line_search::LineHit;
use crate::line_search::LineHitView;
use crate::line_search::LineSearch;
use crate::line_search::SourceFile;
use crate::line_search::Wanted;
use crate::line_search::answers_query;
use crate::line_search::calls_of;
use crate::line_search::hits_in_files;
use crate::line_search::law_queries;
use crate::line_search::line_holds;
use crate::line_search::line_views;
use crate::line_search::search_files;
use crate::line_search::smart;
use crate::pages::at_most;
use crate::pages::cutoff;
use crate::pages::law_cutoff_suffices;
use crate::pages::law_pages_follow;
use crate::pages::page;
use crate::pages::page_at;
use crate::pages::page_of;
use crate::pages::take_for;
use crate::text::occurs;
use crate::text::texts;
use crate::tools::ToolKind;
use crate::tree::SiblingHit;
use crate::tree::SiblingView;
use crate::tree::sibling_views;

verus! {

/// What was found for a tool call.
#[derive(Debug)]
pub enum Finding {
    /// Lines.
    Lines(Vec<LineHit>),
    /// Paths, or the names of modules.
    Names(Vec<String>),
    /// Paths that hold a query, and paths that are near it.
    Matches { exact: Vec<Json>, fuzzy: Vec<Json> },
    /// What a free-form query turned out to be.
    Query(Dispatched),
    /// A text.
    Text(String),
    /// Definitions of a symbol.
    Definitions(Vec<SymbolLocation>),
    /// Symbols that a definition refers to.
    Callees(Vec<CalleeHit>),
    /// Definitions and usages of a symbol.
    References { definitions: Vec<SymbolLocation>, usages: Vec<LineHit> },
    /// Definitions of a symbol with their files, callees and callers.
    Bodies(Vec<FlowDefinition>),
    /// Peers of a symbol.
    Siblings(Vec<SiblingHit>),
    /// The languages of files, and the name of each definition.
    Summary { langs: Vec<Lang>, names: Vec<String> },
}

/// The answer to a tool call.
#[derive(Debug)]
pub enum Reply {
    /// The text as it is.
    Plain(String),
    /// The text of a JSON value.
    Data(Json),
}

/// What a reply says.
#[verifier::ext_equal]
pub enum ReplyView {
    Plain(Seq<char>),
    Data(JsonView),
}

impl View for Reply {
    type V = ReplyView;

    open spec fn view(&self) -> ReplyView {
        match self {
            Reply::Plain(text) => ReplyView::Plain(text@),
            Reply::Data(value) => ReplyView::Data(value@),
        }
    }
}

/// Lines as an answer.
pub open spec fn lines_reply(hits: Seq<LineHitView>) -> ReplyView {
    ReplyView::Data(JsonView::List(hits.map_values(|h: LineHitView| hit_json(h))))
}

/// Names as an answer.
pub open spec fn names_reply(names: Seq<Seq<char>>) -> ReplyView {
    ReplyView::Data(JsonView::List(names.map_values(|t: Seq<char>| JsonView::Text(t))))
}

/// The paths that a search for paths answers with: the exact ones, or else the
/// fuzzy ones.
pub open spec fn best_of(exact: Seq<Json>, fuzzy: Seq<Json>) -> Seq<Json> {
    if exact.len() > 0 {
        exact
    } else {
        fuzzy
    }
}

/// The answer to a call for which that was found; nothing where the tool looks for
/// something else.
pub open spec fn reply_of(call: CallView, found: Finding) -> Option<ReplyView> {
    match (call.kind, found) {
        (ToolKind::Grep, Finding::Lines(hits)) => Some(
            lines_reply(page(line_views(hits@), call.offset as int)),
        ),
        (ToolKind::MultiGrep, Finding::Lines(hits)) => Some(lines_reply(line_views(hits@))),
        (ToolKind::Callers, Finding::Lines(hits)) => Some(lines_reply(line_views(hits@))),
        (ToolKind::Impact, Finding::Lines(hits)) => Some(
            ReplyView::Data(impact_of(line_views(hits@), call.limit)),
        ),
        (ToolKind::Glob, Finding::Names(names)) => Some(
            names_reply(page(texts(names@), call.offset as int)),
        ),
        (ToolKind::Deps, Finding::Names(names)) => Some(names_reply(texts(names@))),
        (ToolKind::Find, Finding::Matches { exact, fuzzy }) => Some(
            ReplyView::Data(
                JsonView::List(
                    at_most(json_views(best_of(exact@, fuzzy@)), call.limit as int),
                ),
            ),
        ),
        (ToolKind::Dispatch, Finding::Query(d)) => Some(
            ReplyView::Data(JsonView::Object(dispatch_fields(d))),
        ),
        (ToolKind::Read, Finding::Text(text)) => Some(ReplyView::Plain(text@)),
        (ToolKind::Outline, Finding::Text(text)) => Some(ReplyView::Plain(text@)),
        (ToolKind::FileMap, Finding::Text(text)) => Some(ReplyView::Plain(text@)),
        (ToolKind::Symbol, Finding::Definitions(hits)) => Some(
            ReplyView::Data(JsonView::List(locations_of(at_most(hits@, call.limit as int)))),
        ),
        (ToolKind::Callees, Finding::Callees(hits)) => Some(
            ReplyView::Data(
                JsonView::List(callee_views(hits@).map_values(|h: CalleeView| callee_json(h))),
            ),
        ),
        (ToolKind::Refs, Finding::References { definitions, usages }) => Some(
            ReplyView::Data(
                JsonView::Object(
                    seq![
                        ("definitions"@, JsonView::List(locations_of(definitions@))),
                        (
                            "usages"@,
                            JsonView::List(
                                line_views(usages@).map_values(|h: LineHitView| hit_json(h)),
                            ),
                        ),
                    ],
                ),
            ),
        ),
        (ToolKind::Flow, Finding::Bodies(definitions)) => Some(
            ReplyView::Data(
                JsonView::List(
                    at_most(definitions@, call.limit as int).map_values(
                        |d: FlowDefinition| flow_card(d),
                    ),
                ),
            ),
        ),
        (ToolKind::Siblings, Finding::Siblings(hits)) => Some(
            ReplyView::Data(
                JsonView::List(sibling_views(hits@).map_values(|h: SiblingView| sibling_json(h))),
            ),
        ),
        (ToolKind::Overview, Finding::Summary { langs, names }) => Some(
            ReplyView::Data(overview_of(langs@, texts(names@), call.limit)),
        ),
        _ => None,
    }
}

/// The answer to a call for which that was found; nothing where the tool looks for
/// something else.
pub fn reply(call: &ToolCall, found: Finding) -> (res: Option<Reply>)
    ensures
        match res {
            Some(r) => reply_of(call@, found) == Some(r@),
            None => reply_of(call@, found) is None,
        },
{
    match (call.kind, found) {
        (ToolKind::Grep, Finding::Lines(hits)) => {
            let ghost all = line_views(hits@);
            let shown = page_of(hits, call.offset);
            assert(line_views(shown@) =~= page(all, call.offset as int));
            Some(Reply::Data(line_hits_json(&shown)))
        },
        (ToolKind::MultiGrep, Finding::Lines(hits)) => Some(Reply::Data(line_hits_json(&hits))),
        (ToolKind::Callers, Finding::Lines(hits)) => Some(Reply::Data(line_hits_json(&hits))),
        (ToolKind::Impact, Finding::Lines(hits)) => Some(
            Reply::Data(impact_json(&hits, call.limit)),
        ),
        (ToolKind::Glob, Finding::Names(names)) => {
            let ghost all = texts(names@);
            let shown = page_of(names, call.offset);
            assert(texts(shown@) =~= page(all, call.offset as int));
            Some(Reply::Data(texts_json(&shown)))
        },
        (ToolKind::Deps, Finding::Names(names)) => Some(Reply::Data(texts_json(&names))),
        (ToolKind::Find, Finding::Matches { exact, fuzzy }) => Some(
            Reply::Data(find_json(exact, fuzzy, call.limit)),
        ),
        (ToolKind::Dispatch, Finding::Query(d)) => Some(Reply::Data(dispatch_json(d))),
        (ToolKind::Read, Finding::Text(text)) => Some(Reply::Plain(text)),
        (ToolKind::Outline, Finding::Text(text)) => Some(Reply::Plain(text)),
        (ToolKind::FileMap, Finding::Text(text)) => Some(Reply::Plain(text)),
        (ToolKind::Symbol, Finding::Definitions(hits)) => Some(
            Reply::Data(symbols_json(hits, call.limit)),
        ),
        (ToolKind::Callees, Finding::Callees(hits)) => Some(Reply::Data(callees_json(&hits))),
        (ToolKind::Refs, Finding::References { definitions, usages }) => Some(
            Reply::Data(refs_json(definitions, &usages)),
        ),
        (ToolKind::Flow, Finding::Bodies(definitions)) => Some(
            Reply::Data(flow_json(&definitions, call.limit)),
        ),
        (ToolKind::Siblings, Finding::Siblings(hits)) => Some(Reply::Data(siblings_json(&hits))),
        (ToolKind::Overview, Finding::Summary { langs, names }) => Some(
            Reply::Data(overview_json(&langs, &names, call.limit)),
        ),
        _ => None,
    }
}

/// The lines that a call looks for: those with its query, or those with a call of
/// its symbol.
pub open spec fn lines_for(call: CallView) -> Option<Wanted> {
    match call.kind {
        ToolKind::Grep => Some(smart(call.subject)),
        ToolKind::Callers | ToolKind::Refs | ToolKind::Impact | ToolKind::Flow => Some(
            calls_of(call.subject),
        ),
        _ => None,
    }
}

/// How many callees and how many callers a definition is shown with.
pub const ENVELOPE_LIMIT: usize = 50;

/// How many results a call has to look for: as far as its page reaches. A ranking
/// of files needs all lines, and a definition is shown with some of its callers,
/// however many definitions are asked for.
pub open spec fn take_of(call: CallView) -> usize {
    match call.kind {
        ToolKind::Impact => usize::MAX,
        ToolKind::Flow => ENVELOPE_LIMIT,
        _ => cutoff(call.offset, call.limit),
    }
}

impl ToolCall {
    /// How many results the call has to look for.
    pub fn take(&self) -> (res: usize)
        ensures
            res == take_of(self@),
    {
        match self.kind {
            ToolKind::Impact => usize::MAX,
            ToolKind::Flow => ENVELOPE_LIMIT,
            _ => take_for(self.offset, self.limit),
        }
    }

    /// The search for the lines that the call looks for, if it looks for lines.
    pub fn line_search(&self) -> (res: Option<LineSearch>)
        ensures
            match res {
                Some(search) => {
                    &&& lines_for(self@) == Some(search.spec_wanted())
                    &&& search.spec_limit() == take_of(self@)
                    &&& search.spec_hits() == Seq::<LineHitView>::empty()
                },
                None => lines_for(self@) is None,
            },
    {
        match self.kind {
            ToolKind::Grep => Some(LineSearch::new(self.subject.as_str(), self.take())),
            ToolKind::Callers | ToolKind::Refs | ToolKind::Impact | ToolKind::Flow => Some(
                LineSearch::for_calls(self.subject.as_str(), self.take()),
            ),
            _ => None,
        }
    }
}

/// The answer to a call of a tool that lists or ranks lines, over the given files:
/// the page of the lines that starts behind `offset` and has `limit` lines at
/// most, or the ranking of all of them.
pub open spec fn lines_answer(root: Seq<char>, files: Seq<SourceFile>, call: CallView) -> Option<
    ReplyView,
> {
    let found = at_most(hits_in_files(root, files, lines_for(call)->0), take_of(call) as int);
    match call.kind {
        ToolKind::Grep => Some(lines_reply(page(found, call.offset as int))),
        ToolKind::Callers => Some(lines_reply(found)),
        ToolKind::Impact => Some(ReplyView::Data(impact_of(found, call.limit))),
        _ => None,
    }
}

/// The answer to a call of a tool that lists or ranks lines, over the given files;
/// nothing for any other tool.
pub fn answer_from_files(root: &str, files: &Vec<SourceFile>, call: &ToolCall) -> (res: Option<
    Reply,
>)
    ensures
        match res {
            Some(r) => lines_answer(root@, files@, call@) == Some(r@),
            None => lines_answer(root@, files@, call@) is None,
        },
{
    match call.kind {
        ToolKind::Grep | ToolKind::Callers | ToolKind::Impact => {},
        _ => {
            return None;
        },
    }
    match call.line_search() {
        Some(search) => reply(call, Finding::Lines(search_files(root, files, search))),
        None => None,
    }
}

/// A search skips as many lines as its call asks for and shows as many as it asks
/// for: the pages of calls that follow each other give all lines, each once.
pub proof fn law_pages_of_lines(
    root: Seq<char>,
    files: Seq<SourceFile>,
    call: CallView,
    next: CallView,
)
    requires
        call.kind == ToolKind::Grep,
        next.kind == ToolKind::Grep,
        next.subject == call.subject,
        next.offset == call.offset + call.limit,
        next.offset + next.limit <= usize::MAX,
    ensures
        ({
            let all = hits_in_files(root, files, smart(call.subject));
            let first = page_at(all, call.offset as int, call.limit as int);
            let second = page_at(all, next.offset as int, next.limit as int);
            &&& lines_answer(root, files, call) == Some(lines_reply(first))
            &&& lines_answer(root, files, next) == Some(lines_reply(second))
            &&& first + second == page_at(all, call.offset as int, call.limit + next.limit)
        }),
{
    law_pages_follow(
        hits_in_files(root, files, smart(call.subject)),
        call.offset as int,
        call.limit as int,
        next.limit as int,
    );
}

/// What lines a call looks for: a search for its query, with its case heeded if it
/// holds an upper-case character, and the tools on callers for calls of the symbol. It
/// goes no further than it needs to: up to the end of the page, through all lines for
/// an impact, and up to fifty for each definition of a flow.
pub proof fn law_lines_looked_for(call: CallView, line: Seq<char>)
    ensures
        call.kind is Grep ==> lines_for(call) is Some && (line_holds(line, lines_for(call)->0)
            <==> answers_query(line, call.subject)),
        call.kind is Callers || call.kind is Refs || call.kind is Impact || call.kind is Flow
            ==> lines_for(call) is Some && (line_holds(line, lines_for(call)->0) <==> occurs(
            line,
            call.subject + seq!['('],
        )),
        !(call.kind is Grep || call.kind is Callers || call.kind is Refs || call.kind is Impact
            || call.kind is Flow) ==> lines_for(call) is None,
        call.kind is Impact ==> take_of(call) == usize::MAX,
        call.kind is Flow ==> take_of(call) == 50,
        !(call.kind is Impact || call.kind is Flow) && call.offset + call.limit <= usize::MAX
            ==> take_of(call) == call.offset + call.limit,
{
    law_queries(line, call.subject);
}

/// The answer to a search is the page of the lines that hold its query, that for the
/// callers the first of the lines with a call, and that for an impact is made of all
/// of them.
pub proof fn law_answers_from_files(root: Seq<char>, files: Seq<SourceFile>, call: CallView)
    requires
        hits_in_files(root, files, smart(call.subject)).len() <= usize::MAX,
        hits_in_files(root, files, calls_of(call.subject)).len() <= usize::MAX,
    ensures
        call.kind is Grep ==> lines_answer(root, files, call) == Some(
            lines_reply(
                page_at(
                    hits_in_files(root, files, smart(call.subject)),
                    call.offset as int,
                    call.limit as int,
                ),
            ),
        ),
        call.kind is Callers && call.offset == 0 ==> lines_answer(root, files, call) == Some(
            lines_reply(
                page_at(hits_in_files(root, files, calls_of(call.subject)), 0, call.limit as int),
            ),
        ),
        call.kind is Impact ==> lines_answer(root, files, call) == Some(
            ReplyView::Data(
                impact_of(hits_in_files(root, files, calls_of(call.subject)), call.limit),
            ),
        ),
        !(call.kind is Grep || call.kind is Callers || call.kind is Impact) ==> lines_answer(
            root,
            files,
            call,
        ) is None,
{
    if call.kind is Grep {
        law_cutoff_suffices(
            hits_in_files(root, files, smart(call.subject)),
            call.offset,
            call.limit,
        );
    }
    if call.kind is Callers && call.offset == 0 {
        let all = hits_in_files(root, files, calls_of(call.subject));
        assert(page_at(all, 0, call.limit as int) =~= at_most(all, call.limit as int));
    }
    if call.kind is Impact {
        let all = hits_in_files(root, files, calls_of(call.subject));
        assert(at_most(all, usize::MAX as int) =~= all);
    }
}

/// A reply in lines or in names has one item for each of them, in their order.
pub proof fn law_replies_keep_the_order(hits: Seq<LineHitView>, names: Seq<Seq<char>>, i: int)
    ensures
        lines_reply(hits) matches ReplyView::Data(JsonView::List(items)) && items.len() == hits.len()
            && (0 <= i < hits.len() ==> items[i] == hit_json(hits[i])),
        names_reply(names) matches ReplyView::Data(JsonView::List(items)) && items.len()
            == names.len() && (0 <= i < names.len() ==> items[i] == JsonView::Text(names[i])),
{
}

/// What a search for a name gives: the exact matches if there are any, and else the
/// others, no more than asked for.
pub proof fn law_exact_matches_come_first(
    call: CallView,
    exact: Vec<Json>,
    fuzzy: Vec<Json>,
    i: int,
)
    requires
        call.kind is Find,
    ensures
        reply_of(call, Finding::Matches { exact, fuzzy }) matches Some(
            ReplyView::Data(JsonView::List(items)),
        ) && {
            let best = if exact@.len() > 0 {
                exact@
            } else {
                fuzzy@
            };
            &&& items.len() == if best.len() <= call.limit {
                best.len() as int
            } else {
                call.limit as int
            }
            &&& 0 <= i < items.len() ==> items[i] == best[i]@
        },
{
}

/// What was found is told according to the tool: pages for lines and paths, the first
/// definitions, plain text as it is. What does not belong to the tool gives no reply.
pub proof fn law_replies(call: CallView, found: Finding)
    ensures
        found matches Finding::Lines(hits) ==> {
            &&& call.kind is Grep ==> reply_of(call, found) == Some(
                lines_reply(page(line_views(hits@), call.offset as int)),
            )
            &&& call.kind is MultiGrep || call.kind is Callers ==> reply_of(call, found) == Some(
                lines_reply(line_views(hits@)),
            )
            &&& call.kind is Impact ==> reply_of(call, found) == Some(
                ReplyView::Data(impact_of(line_views(hits@), call.limit)),
            )
            &&& !(call.kind is Grep || call.kind is MultiGrep || call.kind is Callers
                || call.kind is Impact) ==> reply_of(call, found) is None
        },
        found matches Finding::Names(names) ==> {
            &&& call.kind is Glob ==> reply_of(call, found) == Some(
                names_reply(page(texts(names@), call.offset as int)),
            )
            &&& call.kind is Deps ==> reply_of(call, found) == Some(names_reply(texts(names@)))
            &&& !(call.kind is Glob || call.kind is Deps) ==> reply_of(call, found) is None
        },
        found matches Finding::Text(text) ==> {
            &&& call.kind is Read || call.kind is Outline || call.kind is FileMap ==> reply_of(
                call,
                found,
            ) == Some(ReplyView::Plain(text@))
            &&& !(call.kind is Read || call.kind is Outline || call.kind is FileMap) ==> reply_of(
                call,
                found,
            ) is None
        },
        found matches Finding::Definitions(hits) ==> {
            &&& call.kind is Symbol ==> reply_of(call, found) == Some(
                ReplyView::Data(JsonView::List(locations_of(at_most(hits@, call.limit as int)))),
            )
            &&& !(call.kind is Symbol) ==> reply_of(call, found) is None
        },
        found matches Finding::Callees(hits) ==> {
            &&& call.kind is Callees ==> reply_of(call, found) == Some(
                ReplyView::Data(
                    JsonView::List(callee_views(hits@).map_values(|h: CalleeView| callee_json(h))),
                ),
            )
            &&& !(call.kind is Callees) ==> reply_of(call, found) is None
        },
        found matches Finding::Siblings(hits) ==> {
            &&& call.kind is Siblings ==> reply_of(call, found) == Some(
                ReplyView::Data(
                    JsonView::List(
                        sibling_views(hits@).map_values(|h: SiblingView| sibling_json(h)),
                    ),
                ),
            )
            &&& !(call.kind is Siblings) ==> reply_of(call, found) is None
        },
        found matches Finding::Bodies(definitions) ==> {
            &&& call.kind is Flow ==> reply_of(call, found) == Some(
                ReplyView::Data(
                    JsonView::List(
                        page_at(definitions@, 0, call.limit as int).map_values(
                            |d: FlowDefinition| flow_card(d),
                        ),
                    ),
                ),
            )
            &&& !(call.kind is Flow) ==> reply_of(call, found) is None
        },
        found matches Finding::Query(d) ==> {
            &&& call.kind is Dispatch ==> reply_of(call, found) == Some(
                ReplyView::Data(JsonView::Object(dispatch_fields(d))),
            )
            &&& !(call.kind is Dispatch) ==> reply_of(call, found) is None
        },
        found matches Finding::Summary { langs, names } ==> {
            &&& call.kind is Overview ==> reply_of(call, found) == Some(
                ReplyView::Data(overview_of(langs@, texts(names@), call.limit)),
            )
            &&& !(call.kind is Overview) ==> reply_of(call, found) is None
        },
{
    if let Finding::Bodies(definitions) = found {
        assert(page_at(definitions@, 0, call.limit as int) =~= at_most(
            definitions@,
            call.limit as int,
        ));
    }
}

/// The references of a symbol are where it is defined and where it is called.
pub proof fn law_references(
    call: CallView,
    definitions: Vec<SymbolLocation>,
    usages: Vec<LineHit>,
)
    requires
        call.kind is Refs,
    ensures
        reply_of(call, Finding::References { definitions, usages }) matches Some(
            ReplyView::Data(told),
        ) && {
            &&& told.field("definitions"@) == Some(JsonView::List(locations_of(definitions@)))
            &&& told.field("usages"@) == Some(
                JsonView::List(line_views(usages@).map_values(|h: LineHitView| hit_json(h))),
            )
        },
{
    reveal_strlit("definitions");
    reveal_strlit("usages");
    assert("definitions"@.len() == 11 && "usages"@.len() == 6);
    if let Some(ReplyView::Data(JsonView::Object(fields))) = reply_of(
        call,
        Finding::References { definitions, usages },
    ) {
        lemma_field_at(fields, 0);
        lemma_field_at(fields, 1);
    }
}

} // verus!
