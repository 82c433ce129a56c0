//! Matches grouped by file and enclosing definition.

use vstd::multiset::Multiset;
use vstd::prelude::*;
use vstd::string::StringExecFns;

use crate::hits::GrepHit;
use crate::hits::HitView;
use crate::hits::distinct_paths;
use crate::hits::law_distinct_texts;
use crate::hits::paths_of;
use crate::hits::views;
use crate::outline::SymEntry;
use crate::outline::SymView;
use crate::outline::entry_views;
use crate::outline::get_simple_outline;
use crate::outline::simple_outline;
use crate::render::no_matches;
use crate::render::nothing_found;
use crate::text::decimal;
use crate::text::lemma_text_before_irreflexive;
use crate::text::texts;
use crate::text::to_decimal;

verus! {

/// A match in a group.
#[derive(Debug)]
pub struct GroupedMatch {
    /// The number of its line.
    pub line: u32,
    /// What is shown of it.
    pub text: String,
}

/// The matches within one definition.
#[derive(Debug)]
pub struct MatchGroup {
    /// What kind of definition it is.
    pub kind: String,
    /// What it defines.
    pub name: String,
    /// Its first line.
    pub start_line: u32,
    /// Its last line.
    pub end_line: u32,
    /// The matches.
    pub matches: Vec<GroupedMatch>,
}

/// The matches in one file.
#[derive(Debug)]
pub struct FileGroup {
    /// The path of the file.
    pub path: String,
    /// How many matches there are.
    pub total_matches: usize,
    /// How many definitions the file has.
    pub total_symbols: usize,
    /// The matches, by definition.
    pub groups: Vec<MatchGroup>,
}

/// The answer to a search, by file and definition.
#[derive(Debug)]
pub struct GroupedGrepResult {
    /// The pattern.
    pub needle: String,
    /// How many files have matches.
    pub total_files: usize,
    /// How many matches there are.
    pub total_matches: usize,
    /// What ran: `literal` or `regex`.
    pub mode: &'static str,
    /// The files, in the order of their paths.
    pub files: Vec<FileGroup>,
    /// The version of this form.
    pub schema: &'static str,
}

/// What a match says.
#[verifier::ext_equal]
pub struct MatchView {
    pub line: u32,
    pub text: Seq<char>,
}

/// What a group says.
#[verifier::ext_equal]
pub struct GroupView {
    pub kind: Seq<char>,
    pub name: Seq<char>,
    pub start_line: u32,
    pub end_line: u32,
    pub matches: Seq<MatchView>,
}

/// What the group of a file says.
#[verifier::ext_equal]
pub struct FileView {
    pub path: Seq<char>,
    pub total_matches: int,
    pub total_symbols: int,
    pub groups: Seq<GroupView>,
}

impl View for GroupedMatch {
    type V = MatchView;

    open spec fn view(&self) -> MatchView {
        MatchView { line: self.line, text: self.text@ }
    }
}

/// What each match of a list says.
pub open spec fn match_views(v: Seq<GroupedMatch>) -> Seq<MatchView> {
    v.map_values(|m: GroupedMatch| m@)
}

impl View for MatchGroup {
    type V = GroupView;

    open spec fn view(&self) -> GroupView {
        GroupView {
            kind: self.kind@,
            name: self.name@,
            start_line: self.start_line,
            end_line: self.end_line,
            matches: match_views(self.matches@),
        }
    }
}

/// What each group of a list says.
pub open spec fn group_views(v: Seq<MatchGroup>) -> Seq<GroupView> {
    v.map_values(|g: MatchGroup| g@)
}

impl View for FileGroup {
    type V = FileView;

    open spec fn view(&self) -> FileView {
        FileView {
            path: self.path@,
            total_matches: self.total_matches as int,
            total_symbols: self.total_symbols as int,
            groups: group_views(self.groups@),
        }
    }
}

/// What each file of a list says.
pub open spec fn file_views(v: Seq<FileGroup>) -> Seq<FileView> {
    v.map_values(|f: FileGroup| f@)
}

/// The hits of one file, in their order.
pub open spec fn hits_in(hits: Seq<HitView>, path: Seq<char>) -> Seq<HitView>
    decreases hits.len(),
{
    if hits.len() == 0 {
        seq![]
    } else {
        let rest = hits_in(hits.drop_last(), path);
        if hits.last().path == path {
            rest.push(hits.last())
        } else {
            rest
        }
    }
}

/// The definition spans the line.
pub open spec fn spans_line(e: SymView, line: u32) -> bool {
    e.start_line <= line <= e.end_line
}

/// The first definition that spans the line, if there is one.
pub open spec fn enclosing(entries: Seq<SymView>, line: u32) -> Option<SymView>
    decreases entries.len(),
{
    if entries.len() == 0 {
        None
    } else if spans_line(entries[0], line) {
        Some(entries[0])
    } else {
        enclosing(entries.skip(1), line)
    }
}

/// What a group keeps of a hit.
pub open spec fn kept_of(hit: HitView) -> MatchView {
    MatchView { line: hit.line, text: hit.text }
}

/// A line number, as far as one can be written down in a group.
pub open spec fn group_line(n: int) -> u32 {
    if n < 0 {
        0
    } else if n <= u32::MAX {
        n as u32
    } else {
        u32::MAX
    }
}

/// The group is that of the definition.
pub open spec fn is_group_of(g: GroupView, sym: SymView) -> bool {
    &&& g.name == sym.name
    &&& g.kind == sym.kind
    &&& g.start_line == group_line(sym.start_line)
    &&& g.end_line == group_line(sym.end_line)
}

/// The groups once a match within `sym` has joined them: the group of that
/// definition, or a new one.
pub open spec fn join_group(groups: Seq<GroupView>, sym: SymView, m: MatchView) -> Seq<GroupView>
    decreases groups.len(),
{
    if groups.len() == 0 {
        seq![
            GroupView {
                kind: sym.kind,
                name: sym.name,
                start_line: group_line(sym.start_line),
                end_line: group_line(sym.end_line),
                matches: seq![m],
            },
        ]
    } else if is_group_of(groups[0], sym) {
        seq![GroupView { matches: groups[0].matches.push(m), ..groups[0] }] + groups.skip(1)
    } else {
        seq![groups[0]] + join_group(groups.skip(1), sym, m)
    }
}

/// The groups of the hits that lie within a definition, and the other hits.
pub open spec fn sorted_out(entries: Seq<SymView>, hits: Seq<HitView>) -> (
    Seq<GroupView>,
    Seq<MatchView>,
)
    decreases hits.len(),
{
    if hits.len() == 0 {
        (seq![], seq![])
    } else {
        let (groups, others) = sorted_out(entries, hits.drop_last());
        let m = kept_of(hits.last());
        match enclosing(entries, hits.last().line) {
            Some(sym) => (join_group(groups, sym, m), others),
            None => (groups, others.push(m)),
        }
    }
}

/// The group of the hits outside every definition.
pub open spec fn file_scope(others: Seq<MatchView>) -> GroupView {
    GroupView {
        kind: "file"@,
        name: "<file scope>"@,
        start_line: 0,
        end_line: 0,
        matches: others,
    }
}

/// The groups of a file.
pub open spec fn groups_of(entries: Seq<SymView>, hits: Seq<HitView>) -> Seq<GroupView> {
    let (groups, others) = sorted_out(entries, hits);
    if others.len() == 0 {
        groups
    } else {
        groups.push(file_scope(others))
    }
}

/// The definitions of a file: those of its content, or none where it could not
/// be read.
pub open spec fn entries_of(content: Option<Seq<char>>) -> Seq<SymView> {
    match content {
        Some(text) => simple_outline(text),
        None => seq![],
    }
}

/// The matches of a file, by definition.
pub open spec fn file_group(path: Seq<char>, content: Option<Seq<char>>, hits: Seq<HitView>) -> FileView {
    FileView {
        path,
        total_matches: hits_in(hits, path).len() as int,
        total_symbols: entries_of(content).len() as int,
        groups: groups_of(entries_of(content), hits_in(hits, path)),
    }
}

/// A text that may be missing.
pub open spec fn content_view(content: Option<String>) -> Option<Seq<char>> {
    match content {
        Some(text) => Some(text@),
        None => None,
    }
}

/// The content of the file at position `i`, if it is given.
pub open spec fn content_at(contents: Seq<Option<String>>, i: int) -> Option<Seq<char>> {
    if i < contents.len() {
        content_view(contents[i])
    } else {
        None
    }
}

/// The matches that the groups hold, whichever of them holds them.
pub open spec fn matches_in(groups: Seq<GroupView>) -> Multiset<MatchView>
    decreases groups.len(),
{
    if groups.len() == 0 {
        Multiset::empty()
    } else {
        groups[0].matches.to_multiset().add(matches_in(groups.skip(1)))
    }
}

proof fn lemma_join_adds(groups: Seq<GroupView>, sym: SymView, m: MatchView)
    ensures
        matches_in(join_group(groups, sym, m)) == matches_in(groups).insert(m),
    decreases groups.len(),
{
    broadcast use vstd::seq_lib::group_to_multiset_ensures;

    reveal_with_fuel(matches_in, 2);
    let joined = join_group(groups, sym, m);
    if groups.len() == 0 {
        assert(joined.skip(1) =~= seq![]);
        assert(seq![m] =~= Seq::<MatchView>::empty().push(m));
        assert(matches_in(joined) =~= matches_in(groups).insert(m));
    } else if is_group_of(groups[0], sym) {
        assert(joined.skip(1) =~= groups.skip(1));
        assert(matches_in(joined) =~= matches_in(groups).insert(m));
    } else {
        lemma_join_adds(groups.skip(1), sym, m);
        assert(joined.skip(1) =~= join_group(groups.skip(1), sym, m));
        assert(matches_in(joined) =~= matches_in(groups).insert(m));
    }
}

proof fn lemma_push_adds(groups: Seq<GroupView>, g: GroupView)
    ensures
        matches_in(groups.push(g)) == matches_in(groups).add(g.matches.to_multiset()),
    decreases groups.len(),
{
    reveal_with_fuel(matches_in, 2);
    let all = groups.push(g);
    if groups.len() == 0 {
        assert(all.skip(1) =~= seq![]);
    } else {
        lemma_push_adds(groups.skip(1), g);
        assert(all.skip(1) =~= groups.skip(1).push(g));
    }
    assert(matches_in(all) =~= matches_in(groups).add(g.matches.to_multiset()));
}

proof fn lemma_sorted_out_adds(entries: Seq<SymView>, hits: Seq<HitView>)
    ensures
        matches_in(sorted_out(entries, hits).0).add(sorted_out(entries, hits).1.to_multiset())
            == hits.map_values(|h: HitView| kept_of(h)).to_multiset(),
    decreases hits.len(),
{
    broadcast use vstd::seq_lib::group_to_multiset_ensures;

    let kept = hits.map_values(|h: HitView| kept_of(h));
    let (groups, others) = sorted_out(entries, hits);
    if hits.len() == 0 {
        assert(kept =~= seq![]);
    } else {
        let front = hits.drop_last();
        let m = kept_of(hits.last());
        lemma_sorted_out_adds(entries, front);
        assert(kept =~= front.map_values(|h: HitView| kept_of(h)).push(m));
        match enclosing(entries, hits.last().line) {
            Some(sym) => {
                lemma_join_adds(sorted_out(entries, front).0, sym, m);
            },
            None => {},
        }
    }
    assert(matches_in(groups).add(others.to_multiset()) =~= kept.to_multiset());
}

/// Grouping loses no match and adds none: the groups of a file hold its matches,
/// each as often as it was found.
pub proof fn law_groups_hold_every_match(entries: Seq<SymView>, hits: Seq<HitView>)
    ensures
        matches_in(groups_of(entries, hits)) == hits.map_values(
            |h: HitView| kept_of(h),
        ).to_multiset(),
{
    broadcast use vstd::seq_lib::group_to_multiset_ensures;

    lemma_sorted_out_adds(entries, hits);
    let (groups, others) = sorted_out(entries, hits);
    lemma_push_adds(groups, file_scope(others));
    if others.len() == 0 {
        assert(others =~= seq![]);
        assert(matches_in(groups) =~= matches_in(groups).add(others.to_multiset()));
    }
}

/// Every match of the group lies on the lines that the group gives.
pub open spec fn spans_its_matches(g: GroupView) -> bool {
    forall|k: int|
        0 <= k < g.matches.len() ==> g.start_line <= (#[trigger] g.matches[k]).line <= g.end_line
}

proof fn lemma_enclosing_spans(entries: Seq<SymView>, line: u32)
    ensures
        enclosing(entries, line) matches Some(sym) ==> spans_line(sym, line),
    decreases entries.len(),
{
    if entries.len() > 0 {
        lemma_enclosing_spans(entries.skip(1), line);
    }
}

proof fn lemma_join_spans(groups: Seq<GroupView>, sym: SymView, m: MatchView)
    requires
        spans_line(sym, m.line),
        forall|i: int| 0 <= i < groups.len() ==> spans_its_matches(#[trigger] groups[i]),
    ensures
        forall|i: int|
            0 <= i < join_group(groups, sym, m).len() ==> spans_its_matches(
                #[trigger] join_group(groups, sym, m)[i],
            ),
    decreases groups.len(),
{
    let joined = join_group(groups, sym, m);
    if groups.len() > 0 && !is_group_of(groups[0], sym) {
        let rest = groups.skip(1);
        assert forall|i: int| 0 <= i < rest.len() implies spans_its_matches(
            #[trigger] rest[i],
        ) by {
            assert(rest[i] == groups[i + 1]);
        }
        lemma_join_spans(rest, sym, m);
        assert forall|i: int| 0 <= i < joined.len() implies spans_its_matches(
            #[trigger] joined[i],
        ) by {
            if i > 0 {
                assert(joined[i] == join_group(rest, sym, m)[i - 1]);
            }
        }
    } else if groups.len() > 0 {
        assert forall|i: int| 0 <= i < joined.len() implies spans_its_matches(
            #[trigger] joined[i],
        ) by {
            if i > 0 {
                assert(joined[i] == groups[i]);
            } else {
                let old_list = groups[0].matches;
                assert forall|k: int| 0 <= k < joined[0].matches.len() implies joined[0].start_line
                    <= (#[trigger] joined[0].matches[k]).line <= joined[0].end_line by {
                    if k < old_list.len() {
                        assert(spans_its_matches(groups[0]));
                        assert(joined[0].matches[k] == old_list[k]);
                    }
                }
            }
        }
    }
}

proof fn lemma_sorted_out_spans(entries: Seq<SymView>, hits: Seq<HitView>)
    ensures
        forall|i: int|
            0 <= i < sorted_out(entries, hits).0.len() ==> spans_its_matches(
                #[trigger] sorted_out(entries, hits).0[i],
            ),
    decreases hits.len(),
{
    if hits.len() > 0 {
        let front = hits.drop_last();
        lemma_sorted_out_spans(entries, front);
        let (groups, _others) = sorted_out(entries, front);
        let m = kept_of(hits.last());
        lemma_enclosing_spans(entries, hits.last().line);
        match enclosing(entries, hits.last().line) {
            Some(sym) => {
                lemma_join_spans(groups, sym, m);
                assert(sorted_out(entries, hits).0 == join_group(groups, sym, m));
            },
            None => {
                assert(sorted_out(entries, hits).0 == groups);
            },
        }
    }
}

/// A match stands in the group of a definition only if it lies on the lines of
/// that definition.
pub proof fn law_groups_span_their_matches(entries: Seq<SymView>, hits: Seq<HitView>, i: int)
    requires
        0 <= i < groups_of(entries, hits).len(),
    ensures
        groups_of(entries, hits)[i].kind == "file"@ || spans_its_matches(
            groups_of(entries, hits)[i],
        ),
{
    lemma_sorted_out_spans(entries, hits);
}

/// How many hits the files with the given paths have together.
pub open spec fn hits_under(paths: Seq<Seq<char>>, hits: Seq<HitView>) -> int
    decreases paths.len(),
{
    if paths.len() == 0 {
        0
    } else {
        hits_under(paths.drop_last(), hits) + hits_in(hits, paths.last()).len()
    }
}

proof fn lemma_one_hit_more(paths: Seq<Seq<char>>, hits: Seq<HitView>)
    requires
        hits.len() > 0,
        paths.no_duplicates(),
    ensures
        hits_under(paths, hits) == hits_under(paths, hits.drop_last()) + if paths.contains(
            hits.last().path,
        ) {
            1int
        } else {
            0
        },
    decreases paths.len(),
{
    if paths.len() > 0 {
        let front = paths.drop_last();
        lemma_one_hit_more(front, hits);
        let p = hits.last().path;
        if paths.contains(p) && p != paths.last() {
            assert(front[paths.index_of(p)] == p);
        }
        if front.contains(p) {
            assert(paths[front.index_of(p)] == p);
        }
        assert(paths[paths.len() - 1] == paths.last());
    }
}

proof fn lemma_all_hits_under(paths: Seq<Seq<char>>, hits: Seq<HitView>)
    requires
        paths.no_duplicates(),
        forall|i: int| 0 <= i < hits.len() ==> paths.contains((#[trigger] hits[i]).path),
    ensures
        hits_under(paths, hits) == hits.len(),
    decreases hits.len(),
{
    if hits.len() == 0 {
        lemma_no_hits_under(paths);
        assert(hits =~= seq![]);
    } else {
        lemma_one_hit_more(paths, hits);
        assert(paths.contains(hits[hits.len() - 1].path));
        assert forall|i: int| 0 <= i < hits.drop_last().len() implies paths.contains(
            (#[trigger] hits.drop_last()[i]).path,
        ) by {
            assert(hits[i] == hits.drop_last()[i]);
        }
        lemma_all_hits_under(paths, hits.drop_last());
    }
}

proof fn lemma_no_hits_under(paths: Seq<Seq<char>>)
    ensures
        hits_under(paths, seq![]) == 0,
    decreases paths.len(),
{
    if paths.len() > 0 {
        lemma_no_hits_under(paths.drop_last());
    }
}

/// The files share the matches between them: their totals add up to the number
/// of all matches.
pub proof fn law_files_share_the_matches(hits: Seq<HitView>)
    ensures
        hits_under(distinct_paths(hits), hits) == hits.len(),
{
    let all = hits.map_values(|h: HitView| h.path);
    let paths = distinct_paths(hits);
    law_distinct_texts(all);
    assert forall|i: int, j: int|
        0 <= i < paths.len() && 0 <= j < paths.len() && i != j implies paths[i] != paths[j] by {
        lemma_text_before_irreflexive(paths[i]);
    }
    assert forall|i: int| 0 <= i < hits.len() implies paths.contains((#[trigger] hits[i]).path) by {
        assert(all[i] == hits[i].path);
        assert(all.contains(all[i]));
    }
    lemma_all_hits_under(paths, hits);
}

/// The position of the first definition that spans the line, or how many there
/// are.
fn find_enclosing(entries: &Vec<SymEntry>, line: u32) -> (res: usize)
    ensures
        res <= entries@.len(),
        enclosing(entry_views(entries@), line) == if res < entries@.len() {
            Some(entries@[res as int]@)
        } else {
            None
        },
{
    let ghost all = entry_views(entries@);
    let mut i: usize = 0;
    assert(all.skip(0) =~= all);
    while i < entries.len()
        invariant
            i <= entries@.len(),
            all == entry_views(entries@),
            enclosing(all, line) == enclosing(all.skip(i as int), line),
        decreases entries@.len() - i,
    {
        assert(all.skip(i as int)[0] == entries@[i as int]@);
        assert(all.skip(i as int).skip(1) =~= all.skip(i + 1));
        if entries[i].start_line <= line as usize && line as usize <= entries[i].end_line {
            return i;
        }
        i = i + 1;
    }
    i
}

/// A line number, as far as one can be written down in a group.
fn line_number(n: usize) -> (res: u32)
    ensures
        res == group_line(n as int),
{
    if n <= u32::MAX as usize {
        n as u32
    } else {
        u32::MAX
    }
}

/// Adds a match within `sym` to the groups.
fn add_to_groups(groups: &mut Vec<MatchGroup>, sym: &SymEntry, m: GroupedMatch)
    ensures
        group_views(final(groups)@) == join_group(group_views(old(groups)@), sym@, m@),
{
    let start_line = line_number(sym.start_line);
    let end_line = line_number(sym.end_line);
    let ghost all = group_views(groups@);
    let mut i: usize = 0;
    assert(all.skip(0) =~= all);
    assert(all.take(0) + join_group(all.skip(0), sym@, m@) =~= join_group(all, sym@, m@));
    while i < groups.len()
        invariant
            groups@ == old(groups)@,
            start_line == group_line(sym@.start_line),
            end_line == group_line(sym@.end_line),
            all == group_views(groups@),
            i <= groups@.len(),
            all.take(i as int) + join_group(all.skip(i as int), sym@, m@) == join_group(
                all,
                sym@,
                m@,
            ),
        decreases groups@.len() - i,
    {
        let ghost here = all.skip(i as int);
        assert(here[0] == groups@[i as int]@);
        assert(here.skip(1) =~= all.skip(i + 1));
        if *groups[i].name.as_str() == *sym.name.as_str() && *groups[i].kind.as_str()
            == *sym.kind.as_str() && groups[i].start_line == start_line && groups[i].end_line
            == end_line {
            let mut group = groups.remove(i);
            let ghost before = group@;
            group.matches.push(m);
            assert(match_views(group.matches@) =~= before.matches.push(m@));
            let ghost changed = group@;
            assert(changed =~= GroupView { matches: here[0].matches.push(m@), ..here[0] });
            groups.insert(i, group);
            assert(group_views(groups@) =~= all.take(i as int) + (seq![changed] + here.skip(1)));
            return;
        }
        assert(all.take(i + 1) + join_group(all.skip(i + 1), sym@, m@) =~= all.take(i as int) + (
        seq![here[0]] + join_group(here.skip(1), sym@, m@)));
        i = i + 1;
    }
    let mut matches: Vec<GroupedMatch> = Vec::new();
    matches.push(m);
    assert(match_views(matches@) =~= seq![m@]);
    groups.push(
        MatchGroup {
            kind: sym.kind.clone(),
            name: sym.name.clone(),
            start_line,
            end_line,
            matches,
        },
    );
    assert(all.skip(i as int) =~= seq![]);
    assert(group_views(groups@) =~= all.take(i as int) + join_group(seq![], sym@, m@));
}

/// The matches of one file, by definition.
fn group_file(path: &str, content: &Option<String>, hits: &Vec<GrepHit>) -> (res: FileGroup)
    ensures
        res@ == file_group(path@, content_view(*content), views(hits@)),
{
    let entries = match content {
        Some(text) => get_simple_outline(text.as_str()),
        None => Vec::new(),
    };
    let ghost syms = entries_of(content_view(*content));
    assert(entry_views(entries@) =~= syms);
    let ghost all = views(hits@);
    let mut groups: Vec<MatchGroup> = Vec::new();
    let mut others: Vec<GroupedMatch> = Vec::new();
    let mut total_matches: usize = 0;
    let mut i: usize = 0;
    assert(all.take(0) =~= seq![]);
    assert(group_views(groups@) =~= seq![]);
    assert(match_views(others@) =~= seq![]);
    while i < hits.len()
        invariant
            i <= hits@.len(),
            total_matches <= i,
            all == views(hits@),
            entry_views(entries@) == syms,
            total_matches == hits_in(all.take(i as int), path@).len(),
            (group_views(groups@), match_views(others@)) == sorted_out(
                syms,
                hits_in(all.take(i as int), path@),
            ),
        decreases hits@.len() - i,
    {
        let hit = &hits[i];
        assert(all.take(i + 1).drop_last() =~= all.take(i as int));
        assert(all.take(i + 1).last() == hit@);
        if *hit.path.as_str() == *path {
            let ghost here = hits_in(all.take(i as int), path@);
            assert(here.push(hit@).drop_last() =~= here);
            total_matches = total_matches + 1;
            let m = GroupedMatch { line: hit.line, text: hit.text.clone() };
            assert(m@ == kept_of(hit@));
            let at = find_enclosing(&entries, hit.line);
            if at < entries.len() {
                add_to_groups(&mut groups, &entries[at], m);
            } else {
                let ghost before = others@;
                others.push(m);
                assert(match_views(others@) =~= match_views(before).push(m@));
            }
        }
        i = i + 1;
    }
    assert(all.take(i as int) =~= all);
    if others.len() > 0 {
        let ghost before = groups@;
        let scope = MatchGroup {
            kind: String::from_str("file"),
            name: String::from_str("<file scope>"),
            start_line: 0,
            end_line: 0,
            matches: others,
        };
        groups.push(scope);
        assert(group_views(groups@) =~= group_views(before).push(scope@));
    }
    FileGroup {
        path: path.to_owned(),
        total_matches,
        total_symbols: entries.len(),
        groups,
    }
}

/// The files of an answer, in the order of their paths; `contents` is what each
/// of them holds.
pub open spec fn file_groups(paths: Seq<Seq<char>>, contents: Seq<Option<String>>, hits: Seq<HitView>) -> Seq<
    FileView,
> {
    Seq::new(
        paths.len(),
        |i: int| file_group(paths[i], content_at(contents, i), hits),
    )
}

impl GroupedGrepResult {
    /// This is the answer for the given hits.
    pub open spec fn answers(
        self,
        needle: Seq<char>,
        hits: Seq<HitView>,
        mode: Seq<char>,
        contents: Seq<Option<String>>,
    ) -> bool {
        let paths = distinct_paths(hits);
        &&& self.needle@ == needle
        &&& self.total_files == paths.len()
        &&& self.total_matches == hits.len()
        &&& self.mode@ == mode
        &&& file_views(self.files@) == file_groups(paths, contents, hits)
        &&& self.schema@ == "v2_grouped"@
    }
}

/// The answer for the given hits. `contents` is what the files of the hits
/// hold, in the order of their paths; nothing for one that could not be read.
pub fn build_grouped_result(
    needle: &str,
    hits: &Vec<GrepHit>,
    mode: &'static str,
    contents: &Vec<Option<String>>,
) -> (res: GroupedGrepResult)
    ensures
        res.answers(needle@, views(hits@), mode@, contents@),
        forall|f: int, g: int|
            0 <= f < res.files@.len() && 0 <= g < res.files@[f].groups@.len() ==> (
            #[trigger] res.files@[f].groups@[g])@.kind == "file"@ || spans_its_matches(
                res.files@[f].groups@[g]@,
            ),
{
    let paths = paths_of(hits);
    let ghost wanted = file_groups(distinct_paths(views(hits@)), contents@, views(hits@));
    let mut files: Vec<FileGroup> = Vec::new();
    let mut i: usize = 0;
    assert(texts(paths@).len() == paths@.len());
    assert(views(hits@).len() == hits@.len());
    while i < paths.len()
        invariant
            i <= paths@.len(),
            texts(paths@) == distinct_paths(views(hits@)),
            wanted == file_groups(distinct_paths(views(hits@)), contents@, views(hits@)),
            files@.len() == i,
            forall|k: int| 0 <= k < i ==> (#[trigger] files@[k])@ == wanted[k],
        decreases paths@.len() - i,
    {
        let file = if i < contents.len() {
            group_file(paths[i].as_str(), &contents[i], hits)
        } else {
            group_file(paths[i].as_str(), &None, hits)
        };
        assert(texts(paths@)[i as int] == paths@[i as int]@);
        files.push(file);
        i = i + 1;
    }
    assert(file_views(files@) =~= wanted);
    proof {
        assert forall|f: int, g: int|
            0 <= f < files@.len() && 0 <= g < files@[f].groups@.len() implies (
        #[trigger] files@[f].groups@[g])@.kind == "file"@ || spans_its_matches(
            files@[f].groups@[g]@,
        ) by {
            let path = distinct_paths(views(hits@))[f];
            let entries = entries_of(content_at(contents@, f));
            let own = hits_in(views(hits@), path);
            assert(files@[f]@ == wanted[f]);
            assert(files@[f]@.groups == groups_of(entries, own));
            assert(files@[f]@.groups[g] == files@[f].groups@[g]@);
            law_groups_span_their_matches(entries, own, g);
        }
    }
    GroupedGrepResult {
        needle: needle.to_owned(),
        total_files: files.len(),
        total_matches: hits.len(),
        mode,
        files,
        schema: "v2_grouped",
    }
}

/// A match in a group, as text.
pub open spec fn match_text(m: MatchView) -> Seq<char> {
    "    - L"@ + decimal(m.line as nat) + " "@ + m.text + "\n"@
}

/// Matches in a group, as text.
pub open spec fn matches_text(s: Seq<MatchView>) -> Seq<char>
    decreases s.len(),
{
    if s.len() == 0 {
        seq![]
    } else {
        matches_text(s.drop_last()) + match_text(s.last())
    }
}

/// A group, as text.
pub open spec fn group_text(g: GroupView) -> Seq<char> {
    "  "@ + g.kind + " "@ + g.name + " @ L"@ + decimal(g.start_line as nat) + "-L"@ + decimal(
        g.end_line as nat,
    ) + "\n"@ + matches_text(g.matches)
}

/// Groups, as text.
pub open spec fn groups_text(s: Seq<GroupView>) -> Seq<char>
    decreases s.len(),
{
    if s.len() == 0 {
        seq![]
    } else {
        groups_text(s.drop_last()) + group_text(s.last())
    }
}

/// A file with its groups, as text.
pub open spec fn file_text(f: FileView) -> Seq<char> {
    f.path + " ("@ + decimal(f.total_matches as nat) + " matches, "@ + decimal(
        f.total_symbols as nat,
    ) + " symbols)\n"@ + groups_text(f.groups) + "\n"@
}

/// Files with their groups, as text.
pub open spec fn files_text(s: Seq<FileView>) -> Seq<char>
    decreases s.len(),
{
    if s.len() == 0 {
        seq![]
    } else {
        files_text(s.drop_last()) + file_text(s.last())
    }
}

/// The text form of an answer: its files, or that there are none among `total`.
pub open spec fn grouped_text(files: Seq<FileView>, total: usize) -> Seq<char> {
    if files.len() == 0 {
        nothing_found(total)
    } else {
        files_text(files)
    }
}

/// Adds a group to the text.
fn put_group(out: &mut String, group: &MatchGroup)
    ensures
        final(out)@ == old(out)@ + group_text(group@),
{
    let ghost before = out@;
    out.append("  ");
    out.append(group.kind.as_str());
    out.append(" ");
    out.append(group.name.as_str());
    out.append(" @ L");
    out.append(to_decimal(group.start_line as u64).as_str());
    out.append("-L");
    out.append(to_decimal(group.end_line as u64).as_str());
    out.append("\n");
    let ghost head = out@;
    let ghost all = match_views(group.matches@);
    let mut i: usize = 0;
    assert(all.take(0) =~= seq![]);
    assert(head + matches_text(seq![]) =~= head);
    while i < group.matches.len()
        invariant
            i <= group.matches@.len(),
            all == match_views(group.matches@),
            out@ == head + matches_text(all.take(i as int)),
        decreases group.matches@.len() - i,
    {
        let ghost so_far = out@;
        let m = &group.matches[i];
        out.append("    - L");
        out.append(to_decimal(m.line as u64).as_str());
        out.append(" ");
        out.append(m.text.as_str());
        out.append("\n");
        assert(out@ =~= so_far + match_text(m@));
        assert(all.take(i + 1).drop_last() =~= all.take(i as int));
        assert(all.take(i + 1).last() == m@);
        assert(out@ =~= head + matches_text(all.take(i + 1)));
        i = i + 1;
    }
    assert(all.take(i as int) =~= all);
    assert(out@ =~= before + group_text(group@));
}

/// Adds a file to the text.
fn put_file(out: &mut String, file: &FileGroup)
    ensures
        final(out)@ == old(out)@ + file_text(file@),
{
    let ghost before = out@;
    out.append(file.path.as_str());
    out.append(" (");
    out.append(to_decimal(file.total_matches as u64).as_str());
    out.append(" matches, ");
    out.append(to_decimal(file.total_symbols as u64).as_str());
    out.append(" symbols)\n");
    let ghost head = out@;
    let ghost all = group_views(file.groups@);
    let mut i: usize = 0;
    assert(all.take(0) =~= seq![]);
    assert(head + groups_text(seq![]) =~= head);
    while i < file.groups.len()
        invariant
            i <= file.groups@.len(),
            all == group_views(file.groups@),
            out@ == head + groups_text(all.take(i as int)),
        decreases file.groups@.len() - i,
    {
        let ghost so_far = out@;
        put_group(out, &file.groups[i]);
        assert(all.take(i + 1).drop_last() =~= all.take(i as int));
        assert(all.take(i + 1).last() == file.groups@[i as int]@);
        assert(out@ =~= head + groups_text(all.take(i + 1)));
        i = i + 1;
    }
    assert(all.take(i as int) =~= all);
    out.append("\n");
    assert(out@ =~= before + file_text(file@));
}

/// The text form of an answer. `total` is how many files there are.
pub fn render_groups(answer: &GroupedGrepResult, total: usize) -> (res: String)
    ensures
        res@ == grouped_text(file_views(answer.files@), total),
{
    if answer.files.len() == 0 {
        return no_matches(total);
    }
    let ghost all = file_views(answer.files@);
    let mut out = String::new();
    let mut i: usize = 0;
    assert(all.take(0) =~= seq![]);
    assert(out@ =~= seq![]);
    while i < answer.files.len()
        invariant
            i <= answer.files@.len(),
            all == file_views(answer.files@),
            out@ == files_text(all.take(i as int)),
        decreases answer.files@.len() - i,
    {
        put_file(&mut out, &answer.files[i]);
        assert(all.take(i + 1).drop_last() =~= all.take(i as int));
        assert(all.take(i + 1).last() == answer.files@[i as int]@);
        i = i + 1;
    }
    assert(all.take(i as int) =~= all);
    out
}

/// The symbol around a line is the first entry whose lines hold it, and there is
/// none only if no entry holds it.
pub proof fn law_first_entry_encloses(entries: Seq<SymView>, line: u32)
    ensures
        match enclosing(entries, line) {
            Some(e) => exists|i: int|
                0 <= i < entries.len() && #[trigger] entries[i] == e && e.start_line <= line
                    <= e.end_line && forall|j: int|
                    0 <= j < i ==> !((#[trigger] entries[j]).start_line <= line
                        <= entries[j].end_line),
            None => forall|j: int|
                0 <= j < entries.len() ==> !((#[trigger] entries[j]).start_line <= line
                    <= entries[j].end_line),
        },
    decreases entries.len(),
{
    if entries.len() > 0 {
        if spans_line(entries[0], line) {
            assert(entries[0] == enclosing(entries, line)->0);
        } else {
            let rest = entries.skip(1);
            law_first_entry_encloses(rest, line);
            match enclosing(rest, line) {
                Some(e) => {
                    let i = choose|i: int|
                        0 <= i < rest.len() && #[trigger] rest[i] == e && e.start_line <= line
                            <= e.end_line && forall|j: int|
                            0 <= j < i ==> !((#[trigger] rest[j]).start_line <= line
                                <= rest[j].end_line);
                    assert(entries[i + 1] == e);
                    assert forall|j: int| 0 <= j < i + 1 implies !((
                    #[trigger] entries[j]).start_line <= line <= entries[j].end_line) by {
                        if j > 0 {
                            assert(rest[j - 1] == entries[j]);
                        }
                    }
                },
                None => {
                    assert forall|j: int| 0 <= j < entries.len() implies !((
                    #[trigger] entries[j]).start_line <= line <= entries[j].end_line) by {
                        if j > 0 {
                            assert(rest[j - 1] == entries[j]);
                        }
                    }
                },
            }
        }
    }
}

/// The match is in the group with that kind and name and those lines.
pub open spec fn is_grouped_under(
    groups: Seq<GroupView>,
    line: u32,
    text: Seq<char>,
    kind: Seq<char>,
    name: Seq<char>,
    start: int,
    end: int,
) -> bool {
    exists|g: int, k: int|
        0 <= g < groups.len() && 0 <= k < groups[g].matches.len() && (
        #[trigger] groups[g].matches[k]).line == line && groups[g].matches[k].text == text
            && groups[g].kind == kind && groups[g].name == name && groups[g].start_line == start
            && groups[g].end_line == end
}

proof fn lemma_joined(groups: Seq<GroupView>, sym: SymView, m: MatchView)
    ensures
        is_grouped_under(
            join_group(groups, sym, m),
            m.line,
            m.text,
            sym.kind,
            sym.name,
            group_line(sym.start_line) as int,
            group_line(sym.end_line) as int,
        ),
    decreases groups.len(),
{
    let all = join_group(groups, sym, m);
    if groups.len() == 0 {
        assert(all[0].matches[0] == m);
    } else if is_group_of(groups[0], sym) {
        assert(all[0].matches[groups[0].matches.len() as int] == m);
    } else {
        let rest = groups.skip(1);
        let tail = join_group(rest, sym, m);
        lemma_joined(rest, sym, m);
        let (g, k) = choose|g: int, k: int|
            0 <= g < tail.len() && 0 <= k < tail[g].matches.len() && (
            #[trigger] tail[g].matches[k]).line == m.line && tail[g].matches[k].text == m.text
                && tail[g].kind == sym.kind && tail[g].name == sym.name && tail[g].start_line
                == group_line(sym.start_line) as int && tail[g].end_line == group_line(
                sym.end_line,
            ) as int;
        assert(all[g + 1] == tail[g]);
        assert(all[g + 1].matches[k] == tail[g].matches[k]);
    }
}

proof fn lemma_stays_grouped(
    groups: Seq<GroupView>,
    sym: SymView,
    m: MatchView,
    g: int,
    k: int,
)
    requires
        0 <= g < groups.len(),
        0 <= k < groups[g].matches.len(),
    ensures
        ({
            let all = join_group(groups, sym, m);
            &&& g < all.len()
            &&& k < all[g].matches.len()
            &&& all[g].matches[k] == groups[g].matches[k]
            &&& all[g].kind == groups[g].kind
            &&& all[g].name == groups[g].name
            &&& all[g].start_line == groups[g].start_line
            &&& all[g].end_line == groups[g].end_line
        }),
    decreases groups.len(),
{
    let all = join_group(groups, sym, m);
    if is_group_of(groups[0], sym) {
        if g > 0 {
            assert(all[g] == groups.skip(1)[g - 1]);
        }
    } else if g > 0 {
        lemma_stays_grouped(groups.skip(1), sym, m, g - 1, k);
        assert(all[g] == join_group(groups.skip(1), sym, m)[g - 1]);
    }
}

proof fn lemma_sorted_under(entries: Seq<SymView>, hits: Seq<HitView>, i: int)
    requires
        0 <= i < hits.len(),
    ensures
        match enclosing(entries, hits[i].line) {
            Some(sym) => is_grouped_under(
                sorted_out(entries, hits).0,
                hits[i].line,
                hits[i].text,
                sym.kind,
                sym.name,
                group_line(sym.start_line) as int,
                group_line(sym.end_line) as int,
            ),
            None => exists|k: int|
                0 <= k < sorted_out(entries, hits).1.len() && (#[trigger] sorted_out(
                    entries,
                    hits,
                ).1[k]).line == hits[i].line && sorted_out(entries, hits).1[k].text
                    == hits[i].text,
        },
    decreases hits.len(),
{
    let front = hits.drop_last();
    let (groups, others) = sorted_out(entries, front);
    let (all, rest) = sorted_out(entries, hits);
    let m = kept_of(hits.last());
    if i == front.len() {
        match enclosing(entries, hits.last().line) {
            Some(sym) => {
                lemma_joined(groups, sym, m);
            },
            None => {
                assert(rest[others.len() as int] == m);
            },
        }
    } else {
        lemma_sorted_under(entries, front, i);
        assert(front[i] == hits[i]);
        match enclosing(entries, hits[i].line) {
            Some(sym) => {
                let (g, k) = choose|g: int, k: int|
                    0 <= g < groups.len() && 0 <= k < groups[g].matches.len() && (
                    #[trigger] groups[g].matches[k]).line == hits[i].line
                        && groups[g].matches[k].text == hits[i].text && groups[g].kind == sym.kind
                        && groups[g].name == sym.name && groups[g].start_line == group_line(
                        sym.start_line,
                    ) as int && groups[g].end_line == group_line(sym.end_line) as int;
                if let Some(last) = enclosing(entries, hits.last().line) {
                    lemma_stays_grouped(groups, last, m, g, k);
                }
                assert(all[g].matches[k] == groups[g].matches[k]);
            },
            None => {
                let k = choose|k: int|
                    0 <= k < others.len() && (#[trigger] others[k]).line == hits[i].line
                        && others[k].text == hits[i].text;
                assert(rest[k] == others[k]);
            },
        }
    }
}

/// Each match stands, with its line and its text, in the group of the symbol around
/// its line, under the kind, the name and the lines of that symbol. A match with no
/// symbol around it stands in the last group, that of the file.
pub proof fn law_matches_stand_under_their_symbol(
    entries: Seq<SymView>,
    hits: Seq<HitView>,
    i: int,
)
    requires
        0 <= i < hits.len(),
    ensures
        match enclosing(entries, hits[i].line) {
            Some(sym) => 0 <= sym.start_line && sym.end_line <= u32::MAX ==> is_grouped_under(
                groups_of(entries, hits),
                hits[i].line,
                hits[i].text,
                sym.kind,
                sym.name,
                sym.start_line,
                sym.end_line,
            ),
            None => is_grouped_under(
                seq![groups_of(entries, hits).last()],
                hits[i].line,
                hits[i].text,
                "file"@,
                "<file scope>"@,
                0,
                0,
            ),
        },
{
    lemma_sorted_under(entries, hits, i);
    let (groups, others) = sorted_out(entries, hits);
    let all = groups_of(entries, hits);
    match enclosing(entries, hits[i].line) {
        Some(sym) => {
            law_first_entry_encloses(entries, hits[i].line);
            if 0 <= sym.start_line && sym.end_line <= u32::MAX {
                let (g, k) = choose|g: int, k: int|
                    0 <= g < groups.len() && 0 <= k < groups[g].matches.len() && (
                    #[trigger] groups[g].matches[k]).line == hits[i].line
                        && groups[g].matches[k].text == hits[i].text && groups[g].kind == sym.kind
                        && groups[g].name == sym.name && groups[g].start_line == group_line(
                        sym.start_line,
                    ) as int && groups[g].end_line == group_line(sym.end_line) as int;
                assert(all[g] == groups[g]);
                assert(all[g].matches[k] == groups[g].matches[k]);
            }
        },
        None => {
            let k = choose|k: int|
                0 <= k < others.len() && (#[trigger] others[k]).line == hits[i].line
                    && others[k].text == hits[i].text;
            let last = seq![all.last()];
            assert(last[0].matches[k] == others[k]);
        },
    }
}

/// The matches of a file are the hits with its path, all of them and in order.
pub proof fn law_file_has_its_hits(hits: Seq<HitView>, h: HitView, path: Seq<char>)
    ensures
        hits_in(seq![], path).len() == 0,
        hits_in(hits.push(h), path) == hits_in(hits, path) + (if h.path == path {
            seq![h]
        } else {
            seq![]
        }),
{
    assert(hits.push(h).drop_last() =~= hits);
    assert(hits_in(hits, path).push(h) =~= hits_in(hits, path) + seq![h]);
    assert(hits_in(hits, path) + seq![] =~= hits_in(hits, path));
}

/// There is one group of matches for each file that has a hit, in the order of
/// their paths, with how many matches and how many symbols it has.
pub proof fn law_file_groups(hits: Seq<HitView>, contents: Seq<Option<String>>, i: int)
    requires
        0 <= i < distinct_paths(hits).len(),
        i < contents.len(),
    ensures
        ({
            let files = file_groups(distinct_paths(hits), contents, hits);
            &&& files.len() == distinct_paths(hits).len()
            &&& files[i].path == distinct_paths(hits)[i]
            &&& files[i].total_matches == hits_in(hits, files[i].path).len()
            &&& contents[i] matches Some(text) ==> files[i].total_symbols == simple_outline(
                text@,
            ).len() && files[i].groups == groups_of(
                simple_outline(text@),
                hits_in(hits, files[i].path),
            )
            &&& contents[i] is None ==> files[i].total_symbols == 0 && files[i].groups
                == groups_of(seq![], hits_in(hits, files[i].path))
        }),
{
}

/// A file is shown by its path and how many matches and symbols it has, each group by
/// its kind, its name and its lines, and each match by its line and its text.
pub proof fn law_groups_are_shown(
    f: FileView,
    g: GroupView,
    m: MatchView,
    files: Seq<FileView>,
    groups: Seq<GroupView>,
    matches: Seq<MatchView>,
    total: usize,
)
    ensures
        matches_text(seq![]).len() == 0,
        matches_text(matches.push(m)) == matches_text(matches) + ("    - L"@ + decimal(
            m.line as nat,
        ) + " "@ + m.text + "\n"@),
        groups_text(seq![]).len() == 0,
        groups_text(groups.push(g)) == groups_text(groups) + ("  "@ + g.kind + " "@ + g.name
            + " @ L"@ + decimal(g.start_line as nat) + "-L"@ + decimal(g.end_line as nat) + "\n"@
            + matches_text(g.matches)),
        files_text(seq![]).len() == 0,
        files_text(files.push(f)) == files_text(files) + (f.path + " ("@ + decimal(
            f.total_matches as nat,
        ) + " matches, "@ + decimal(f.total_symbols as nat) + " symbols)\n"@ + groups_text(f.groups)
            + "\n"@),
        grouped_text(seq![], total) == "[no matches across "@ + decimal(total as nat)
            + " files]\n"@,
        files.len() > 0 ==> grouped_text(files, total) == files_text(files),
{
    assert(matches.push(m).drop_last() =~= matches);
    assert(groups.push(g).drop_last() =~= groups);
    assert(files.push(f).drop_last() =~= files);
}

proof fn lemma_join_one(groups: Seq<GroupView>, sym: SymView, m: MatchView)
    ensures
        ({
            let all = join_group(groups, sym, m);
            &&& groups.len() <= all.len() <= groups.len() + 1
            &&& forall|g: int|
                0 <= g < groups.len() ==> (#[trigger] all[g]).kind == groups[g].kind && all[g].name
                    == groups[g].name && all[g].start_line == groups[g].start_line
                    && all[g].end_line == groups[g].end_line && (all[g].matches
                    == groups[g].matches || all[g].matches == groups[g].matches.push(m))
            &&& all.len() > groups.len() ==> all.last().matches == seq![m] && forall|g: int|
                0 <= g < groups.len() ==> #[trigger] all[g] == groups[g]
        }),
    decreases groups.len(),
{
    let all = join_group(groups, sym, m);
    if groups.len() > 0 {
        if is_group_of(groups[0], sym) {
            assert forall|g: int| 0 <= g < groups.len() implies (#[trigger] all[g]).kind
                == groups[g].kind && all[g].name == groups[g].name && all[g].start_line
                == groups[g].start_line && all[g].end_line == groups[g].end_line && (all[g].matches
                == groups[g].matches || all[g].matches == groups[g].matches.push(m)) by {
                if g > 0 {
                    assert(all[g] == groups.skip(1)[g - 1]);
                }
            }
        } else {
            let rest = groups.skip(1);
            let tail = join_group(rest, sym, m);
            lemma_join_one(rest, sym, m);
            assert forall|g: int| 0 <= g < groups.len() implies (#[trigger] all[g]).kind
                == groups[g].kind && all[g].name == groups[g].name && all[g].start_line
                == groups[g].start_line && all[g].end_line == groups[g].end_line && (all[g].matches
                == groups[g].matches || all[g].matches == groups[g].matches.push(m)) by {
                if g > 0 {
                    assert(all[g] == tail[g - 1]);
                    assert(rest[g - 1] == groups[g]);
                }
            }
            if all.len() > groups.len() {
                assert(all.last() == tail.last());
                assert forall|g: int| 0 <= g < groups.len() implies #[trigger] all[g]
                    == groups[g] by {
                    if g > 0 {
                        assert(all[g] == tail[g - 1]);
                        assert(rest[g - 1] == groups[g]);
                    }
                }
            }
        }
    }
}

/// One match more changes nothing of the groups before it but that it joins one of
/// them at the end, or starts a new one behind them: groups stand in the order of
/// their first match, and matches in the order in which they came.
pub proof fn law_groups_grow_in_order(entries: Seq<SymView>, hits: Seq<HitView>, h: HitView)
    ensures
        ({
            let before = sorted_out(entries, hits).0;
            let after = sorted_out(entries, hits.push(h)).0;
            let m = MatchView { line: h.line, text: h.text };
            &&& before.len() <= after.len() <= before.len() + 1
            &&& forall|g: int|
                0 <= g < before.len() ==> (#[trigger] after[g]).kind == before[g].kind
                    && after[g].name == before[g].name && (after[g].matches == before[g].matches
                    || after[g].matches == before[g].matches.push(m))
            &&& after.len() > before.len() ==> after.last().matches == seq![m]
            &&& enclosing(entries, h.line) is None ==> after == before && sorted_out(
                entries,
                hits.push(h),
            ).1 == sorted_out(entries, hits).1.push(m)
            &&& enclosing(entries, h.line) is Some ==> sorted_out(entries, hits.push(h)).1
                == sorted_out(entries, hits).1
        }),
        ({
            let (groups, others) = sorted_out(entries, hits);
            &&& others.len() == 0 ==> groups_of(entries, hits) == groups
            &&& others.len() > 0 ==> groups_of(entries, hits).drop_last() == groups && groups_of(
                entries,
                hits,
            ).last().matches == others
        }),
{
    assert(hits.push(h).drop_last() =~= hits);
    let (groups, others) = sorted_out(entries, hits);
    if let Some(sym) = enclosing(entries, h.line) {
        lemma_join_one(groups, sym, kept_of(h));
    }
    if others.len() > 0 {
        assert(groups_of(entries, hits).drop_last() =~= groups);
    }
}

} // verus!
