//! Searches for lines that hold a text, over one file after the other.

use vstd::prelude::*;

use crate::matcher::has_upper;
use crate::matcher::has_uppercase;
use crate::matcher::lowercased;
use crate::matcher::uppercase;
use crate::pages::at_most;
use crate::paths::display_path;
use crate::paths::shown_path;
use crate::text::contains;
use crate::text::lines;
use crate::text::occurs;
use crate::text::split_lines;
use crate::text::texts;
use crate::text::trim;
use crate::text::trimmed;

verus! {

/// A line that holds what was looked for.
#[derive(Debug)]
pub struct LineHit {
    /// The path of the file, below the root.
    pub path: String,
    /// The number of the line, from one.
    pub line: usize,
    /// The line, without white space around it.
    pub text: String,
}

/// What a hit says.
#[verifier::ext_equal]
pub struct LineHitView {
    pub path: Seq<char>,
    pub line: int,
    pub text: Seq<char>,
}

impl View for LineHit {
    type V = LineHitView;

    open spec fn view(&self) -> LineHitView {
        LineHitView { path: self.path@, line: self.line as int, text: self.text@ }
    }
}

/// What each hit of a list says.
pub open spec fn line_views(v: Seq<LineHit>) -> Seq<LineHitView> {
    v.map_values(|h: LineHit| h@)
}

/// What lines are searched for: a text, in the lines as they are or in lower
/// case.
#[verifier::ext_equal]
pub struct Wanted {
    pub needle: Seq<char>,
    pub lower: bool,
}

/// A query is looked for as it is if it holds an upper-case character, else
/// without regard to case.
pub open spec fn smart(query: Seq<char>) -> Wanted {
    if has_upper(query) {
        Wanted { needle: query, lower: false }
    } else {
        Wanted { needle: lowercased(query), lower: true }
    }
}

/// A call of `name` is its name with a bracket behind it.
pub open spec fn calls_of(name: Seq<char>) -> Wanted {
    Wanted { needle: name.push('('), lower: false }
}

/// The line holds what is wanted.
pub open spec fn line_holds(line: Seq<char>, wanted: Wanted) -> bool {
    if wanted.lower {
        occurs(lowercased(line), wanted.needle)
    } else {
        occurs(line, wanted.needle)
    }
}

/// The hits among the lines of a file.
pub open spec fn hits_among(path: Seq<char>, text: Seq<Seq<char>>, wanted: Wanted) -> Seq<
    LineHitView,
>
    decreases text.len(),
{
    if text.len() == 0 {
        seq![]
    } else {
        let rest = hits_among(path, text.drop_last(), wanted);
        if line_holds(text.last(), wanted) {
            rest.push(
                LineHitView {
                    path,
                    line: text.len() as int,
                    text: trimmed(text.last(), None),
                },
            )
        } else {
            rest
        }
    }
}

/// A file with its text, if it could be read.
#[derive(Debug)]
pub struct SourceFile {
    /// Its path.
    pub path: String,
    /// Its text.
    pub text: Option<String>,
}

/// The hits in a file.
pub open spec fn hits_in_file(root: Seq<char>, file: SourceFile, wanted: Wanted) -> Seq<
    LineHitView,
> {
    match file.text {
        Some(text) => hits_among(shown_path(root, file.path@), lines(text@), wanted),
        None => seq![],
    }
}

/// The hits in files.
pub open spec fn hits_in_files(root: Seq<char>, files: Seq<SourceFile>, wanted: Wanted) -> Seq<
    LineHitView,
>
    decreases files.len(),
{
    if files.len() == 0 {
        seq![]
    } else {
        hits_in_files(root, files.drop_last(), wanted) + hits_in_file(root, files.last(), wanted)
    }
}

/// Cutting off early changes nothing of what is left in the end.
proof fn lemma_cut_twice<T>(a: Seq<T>, b: Seq<T>, n: int)
    requires
        0 <= n,
    ensures
        at_most(at_most(a, n) + b, n) == at_most(a + b, n),
{
    assert(at_most(at_most(a, n) + b, n) =~= at_most(a + b, n));
}

/// A search for lines.
#[derive(Debug)]
pub struct LineSearch {
    needle: String,
    lower: bool,
    limit: usize,
    hits: Vec<LineHit>,
}

impl LineSearch {
    /// What is looked for.
    pub closed spec fn spec_wanted(self) -> Wanted {
        Wanted { needle: self.needle@, lower: self.lower }
    }

    /// How many hits are wanted.
    pub closed spec fn spec_limit(self) -> usize {
        self.limit
    }

    /// The hits so far.
    pub closed spec fn spec_hits(self) -> Seq<LineHitView> {
        line_views(self.hits@)
    }

    /// There are no more hits than wanted.
    #[verifier::type_invariant]
    spec fn within_limit(self) -> bool {
        self.hits@.len() <= self.limit
    }

    /// A search for a query, which heeds case if the query holds an upper-case
    /// character.
    pub fn new(query: &str, limit: usize) -> (res: LineSearch)
        ensures
            res.spec_wanted() == smart(query@),
            res.spec_limit() == limit,
            res.spec_hits() == Seq::<LineHitView>::empty(),
    {
        let hits: Vec<LineHit> = Vec::new();
        assert(line_views(hits@) =~= seq![]);
        if has_uppercase(query) {
            LineSearch { needle: query.to_owned(), lower: false, limit, hits }
        } else {
            LineSearch { needle: query.to_lowercase(), lower: true, limit, hits }
        }
    }

    /// A search for calls of `name`.
    pub fn for_calls(name: &str, limit: usize) -> (res: LineSearch)
        ensures
            res.spec_wanted() == calls_of(name@),
            res.spec_limit() == limit,
            res.spec_hits() == Seq::<LineHitView>::empty(),
    {
        let hits: Vec<LineHit> = Vec::new();
        assert(line_views(hits@) =~= seq![]);
        let mut needle = name.to_owned();
        needle.push('(');
        LineSearch { needle, lower: false, limit, hits }
    }

    /// Whether there are as many hits as wanted, so that no more files have to
    /// be read.
    pub fn is_full(&self) -> (res: bool)
        ensures
            res == (self.spec_hits().len() >= self.spec_limit()),
    {
        self.hits.len() >= self.limit
    }

    /// Searches a file.
    pub fn add_file(&mut self, root: &str, path: &str, text: &str)
        ensures
            final(self).spec_wanted() == old(self).spec_wanted(),
            final(self).spec_limit() == old(self).spec_limit(),
            final(self).spec_hits() == at_most(
                old(self).spec_hits() + hits_among(
                    shown_path(root@, path@),
                    lines(text@),
                    old(self).spec_wanted(),
                ),
                old(self).spec_limit() as int,
            ),
    {
        proof {
            use_type_invariant(&*self);
        }
        let all = split_lines(text);
        let shown = display_path(root, path);
        let ghost t = lines(text@);
        let ghost wanted = self.spec_wanted();
        let ghost before = self.spec_hits();
        let limit = self.limit;
        let mut hits: Vec<LineHit> = Vec::new();
        std::mem::swap(&mut hits, &mut self.hits);
        let mut i: usize = 0;
        assert(t.take(0) =~= seq![]);
        assert(line_views(hits@) =~= before + seq![]);
        assert(texts(all@).len() == all@.len());
        while i < all.len() && hits.len() < limit
            invariant
                i <= all@.len(),
                texts(all@) == t,
                wanted == self.spec_wanted(),
                hits@.len() <= limit,
                shown@ == shown_path(root@, path@),
                line_views(hits@) == before + hits_among(shown@, t.take(i as int), wanted),
            decreases all@.len() - i,
        {
            let line = all[i].as_str();
            assert(t.take(i + 1).drop_last() =~= t.take(i as int));
            assert(t.take(i + 1).last() == all@[i as int]@);
            let found = if self.lower {
                contains(line.to_lowercase().as_str(), self.needle.as_str())
            } else {
                contains(line, self.needle.as_str())
            };
            if found {
                let ghost so_far = hits@;
                hits.push(
                    LineHit { path: shown.clone(), line: i + 1, text: trim(line, None) },
                );
                assert(line_views(hits@) =~= line_views(so_far).push(hits@.last()@));
                assert(line_views(hits@) =~= before + hits_among(shown@, t.take(i + 1), wanted));
            }
            i = i + 1;
        }
        proof {
            let rest = hits_among(shown@, t, wanted);
            lemma_hits_prefix(shown@, t, wanted, i as int);
            assert(line_views(hits@).len() == hits@.len());
            if i == all@.len() {
                assert(t.take(i as int) =~= t);
            }
            assert(at_most(before + rest, limit as int) =~= line_views(hits@));
        }
        self.hits = hits;
    }

    /// The hits.
    pub fn into_hits(self) -> (res: Vec<LineHit>)
        ensures
            line_views(res@) == self.spec_hits(),
            res@.len() <= self.spec_limit(),
    {
        proof {
            use_type_invariant(&self);
        }
        self.hits
    }
}

/// The hits among the first lines are the first hits.
proof fn lemma_hits_prefix(path: Seq<char>, text: Seq<Seq<char>>, wanted: Wanted, k: int)
    requires
        0 <= k <= text.len(),
    ensures
        hits_among(path, text.take(k), wanted).len() <= hits_among(path, text, wanted).len(),
        hits_among(path, text, wanted).take(
            hits_among(path, text.take(k), wanted).len() as int,
        ) == hits_among(path, text.take(k), wanted),
    decreases text.len(),
{
    let part = hits_among(path, text.take(k), wanted);
    let full = hits_among(path, text, wanted);
    if k == text.len() {
        assert(text.take(k) =~= text);
        assert(full.take(full.len() as int) =~= full);
    } else {
        let front = text.drop_last();
        lemma_hits_prefix(path, front, wanted, k);
        assert(front.take(k) =~= text.take(k));
        assert(full.take(part.len() as int) =~= part);
    }
}

/// Searches files for the lines that hold a query.
pub fn grep_files(root: &str, files: &Vec<SourceFile>, query: &str, limit: usize) -> (res: Vec<
    LineHit,
>)
    ensures
        line_views(res@) == at_most(
            hits_in_files(root@, files@, smart(query@)),
            limit as int,
        ),
{
    search_files(root, files, LineSearch::new(query, limit))
}

/// Searches files for calls of `name`.
pub fn collect_callers(root: &str, files: &Vec<SourceFile>, name: &str, limit: usize) -> (res: Vec<
    LineHit,
>)
    ensures
        line_views(res@) == at_most(
            hits_in_files(root@, files@, calls_of(name@)),
            limit as int,
        ),
{
    search_files(root, files, LineSearch::for_calls(name, limit))
}

/// Runs a search over files, until there are as many hits as wanted.
pub fn search_files(root: &str, files: &Vec<SourceFile>, search: LineSearch) -> (res: Vec<LineHit>)
    requires
        search.spec_hits().len() == 0,
    ensures
        line_views(res@) == at_most(
            hits_in_files(root@, files@, search.spec_wanted()),
            search.spec_limit() as int,
        ),
        res@.len() <= search.spec_limit(),
{
    let ghost wanted = search.spec_wanted();
    let ghost limit = search.spec_limit() as int;
    let ghost all = hits_in_files(root@, files@, wanted);
    let mut search = search;
    let mut i: usize = 0;
    assert(files@.take(0) =~= seq![]);
    assert(search.spec_hits() =~= at_most(Seq::<LineHitView>::empty(), limit));
    while i < files.len() && !search.is_full()
        invariant
            i <= files@.len(),
            search.spec_wanted() == wanted,
            search.spec_limit() == limit,
            search.spec_hits() == at_most(
                hits_in_files(root@, files@.take(i as int), wanted),
                limit,
            ),
        decreases files@.len() - i,
    {
        let ghost head = hits_in_files(root@, files@.take(i as int), wanted);
        let file = &files[i];
        assert(files@.take(i + 1).drop_last() =~= files@.take(i as int));
        assert(files@.take(i + 1).last() == file);
        match &file.text {
            Some(text) => {
                search.add_file(root, file.path.as_str(), text.as_str());
                proof {
                    lemma_cut_twice(head, hits_in_file(root@, *file, wanted), limit);
                }
            },
            None => {
                assert(head + hits_in_file(root@, *file, wanted) =~= head);
            },
        }
        i = i + 1;
    }
    proof {
        lemma_files_prefix(root@, files@, wanted, i as int);
        let head = hits_in_files(root@, files@.take(i as int), wanted);
        if i == files@.len() {
            assert(files@.take(i as int) =~= files@);
        } else {
            assert(at_most(all, limit) =~= at_most(head, limit));
        }
    }
    search.into_hits()
}

/// The hits in the first files are the first hits.
proof fn lemma_files_prefix(root: Seq<char>, files: Seq<SourceFile>, wanted: Wanted, k: int)
    requires
        0 <= k <= files.len(),
    ensures
        hits_in_files(root, files.take(k), wanted).len() <= hits_in_files(
            root,
            files,
            wanted,
        ).len(),
        hits_in_files(root, files, wanted).take(
            hits_in_files(root, files.take(k), wanted).len() as int,
        ) == hits_in_files(root, files.take(k), wanted),
    decreases files.len(),
{
    let part = hits_in_files(root, files.take(k), wanted);
    let full = hits_in_files(root, files, wanted);
    if k == files.len() {
        assert(files.take(k) =~= files);
        assert(full.take(full.len() as int) =~= full);
    } else {
        let front = files.drop_last();
        lemma_files_prefix(root, front, wanted, k);
        assert(front.take(k) =~= files.take(k));
        assert(full.take(part.len() as int) =~= part);
    }
}

/// The line holds what is looked for by a query: as it stands if the query holds
/// an upper-case character, and else both in lower case.
pub open spec fn answers_query(line: Seq<char>, query: Seq<char>) -> bool {
    if exists|k: int| 0 <= k < query.len() && uppercase(#[trigger] query[k]) {
        occurs(line, query)
    } else {
        occurs(lowercased(line), lowercased(query))
    }
}

/// A query is heeded with its case if and only if it holds an upper-case character.
/// A call is looked for as the name and an opening parenthesis right behind it.
pub proof fn law_queries(line: Seq<char>, query: Seq<char>)
    ensures
        line_holds(line, smart(query)) <==> answers_query(line, query),
        line_holds(line, calls_of(query)) <==> occurs(line, query + seq!['(']),
{
    assert(query.push('(') =~= query + seq!['(']);
}

proof fn lemma_line_hits(path: Seq<char>, text: Seq<Seq<char>>, wanted: Wanted, h: LineHitView)
    ensures
        hits_among(path, text, wanted).contains(h) <==> h.path == path && 1 <= h.line <= text.len()
            && line_holds(text[h.line - 1], wanted) && h.text == trimmed(text[h.line - 1], None),
    decreases text.len(),
{
    let all = hits_among(path, text, wanted);
    if text.len() > 0 {
        let front = text.drop_last();
        let rest = hits_among(path, front, wanted);
        lemma_line_hits(path, front, wanted, h);
        if all.contains(h) {
            let k = all.index_of(h);
            if k < rest.len() {
                assert(rest[k] == h);
            }
        }
        if rest.contains(h) {
            assert(all[rest.index_of(h)] == h);
        }
        if h.path == path && h.line == text.len() && line_holds(text[h.line - 1], wanted) && h.text
            == trimmed(text[h.line - 1], None) {
            assert(all[rest.len() as int] == h);
        }
    }
}

proof fn lemma_file_hits(root: Seq<char>, files: Seq<SourceFile>, wanted: Wanted, h: LineHitView)
    ensures
        hits_in_files(root, files, wanted).contains(h) <==> exists|j: int|
            0 <= j < files.len() && (#[trigger] files[j]).text is Some && is_line_of(
                h,
                root,
                files[j],
            ) && line_holds(lines(files[j].text->0@)[h.line - 1], wanted),
    decreases files.len(),
{
    let all = hits_in_files(root, files, wanted);
    if files.len() > 0 {
        let front = files.drop_last();
        let rest = hits_in_files(root, front, wanted);
        let last = hits_in_file(root, files.last(), wanted);
        lemma_file_hits(root, front, wanted, h);
        if let Some(text) = files.last().text {
            lemma_line_hits(shown_path(root, files.last().path@), lines(text@), wanted, h);
        }
        if all.contains(h) {
            let k = all.index_of(h);
            if k < rest.len() {
                assert(rest[k] == h);
                let j = choose|j: int|
                    0 <= j < front.len() && (#[trigger] front[j]).text is Some && is_line_of(
                        h,
                        root,
                        front[j],
                    ) && line_holds(lines(front[j].text->0@)[h.line - 1], wanted);
                assert(files[j] == front[j]);
            } else {
                assert(last[k - rest.len()] == h);
                assert(files[files.len() - 1].text is Some);
            }
        }
        if exists|j: int|
            0 <= j < files.len() && (#[trigger] files[j]).text is Some && is_line_of(
                h,
                root,
                files[j],
            ) && line_holds(lines(files[j].text->0@)[h.line - 1], wanted) {
            let j = choose|j: int|
                0 <= j < files.len() && (#[trigger] files[j]).text is Some && is_line_of(
                    h,
                    root,
                    files[j],
                ) && line_holds(lines(files[j].text->0@)[h.line - 1], wanted);
            if j < front.len() {
                assert(front[j] == files[j]);
                assert(all[rest.index_of(h)] == h);
            } else {
                assert(last.contains(h));
                assert(all[rest.len() + last.index_of(h)] == h);
            }
        }
    }
}

/// The hit is a line of the file: it has the path of the file, the number of the
/// line and its text without the white space around it.
pub open spec fn is_line_of(h: LineHitView, root: Seq<char>, file: SourceFile) -> bool {
    &&& h.path == shown_path(root, file.path@)
    &&& 1 <= h.line <= lines(file.text->0@).len()
    &&& h.text == trimmed(lines(file.text->0@)[h.line - 1], None)
}

/// A search lists the lines of the files that hold the query, each of them, and
/// nothing else.
pub proof fn law_search_lists_the_lines(
    root: Seq<char>,
    files: Seq<SourceFile>,
    query: Seq<char>,
    h: LineHitView,
)
    ensures
        hits_in_files(root, files, smart(query)).contains(h) <==> exists|j: int|
            0 <= j < files.len() && (#[trigger] files[j]).text is Some && is_line_of(
                h,
                root,
                files[j],
            ) && answers_query(lines(files[j].text->0@)[h.line - 1], query),
{
    lemma_file_hits(root, files, smart(query), h);
}

/// The callers of a symbol are the lines of the files that hold its name and an
/// opening parenthesis right behind it, each of them, and nothing else.
pub proof fn law_callers_are_the_calls(
    root: Seq<char>,
    files: Seq<SourceFile>,
    name: Seq<char>,
    h: LineHitView,
)
    ensures
        hits_in_files(root, files, calls_of(name)).contains(h) <==> exists|j: int|
            0 <= j < files.len() && (#[trigger] files[j]).text is Some && is_line_of(
                h,
                root,
                files[j],
            ) && occurs(lines(files[j].text->0@)[h.line - 1], name + seq!['(']),
{
    lemma_file_hits(root, files, calls_of(name), h);
    assert(name.push('(') =~= name + seq!['(']);
}

proof fn lemma_lines_ascend(path: Seq<char>, text: Seq<Seq<char>>, wanted: Wanted)
    ensures
        forall|i: int|
            0 <= i < hits_among(path, text, wanted).len() ==> (#[trigger] hits_among(
                path,
                text,
                wanted,
            )[i]).line <= text.len(),
        forall|i: int, j: int|
            0 <= i < j < hits_among(path, text, wanted).len() ==> (#[trigger] hits_among(
                path,
                text,
                wanted,
            )[i]).line < (#[trigger] hits_among(path, text, wanted)[j]).line,
    decreases text.len(),
{
    if text.len() > 0 {
        lemma_lines_ascend(path, text.drop_last(), wanted);
        let rest = hits_among(path, text.drop_last(), wanted);
        let all = hits_among(path, text, wanted);
        assert forall|i: int| 0 <= i < all.len() implies (#[trigger] all[i]).line
            <= text.len() by {
            if i < rest.len() {
                assert(all[i] == rest[i]);
            }
        }
        assert forall|i: int, j: int| 0 <= i < j < all.len() implies (#[trigger] all[i]).line < (
        #[trigger] all[j]).line by {
            assert(all[i] == rest[i]);
            if j < rest.len() {
                assert(all[j] == rest[j]);
            }
        }
    }
}

/// The hits come file by file, and within a file line by line.
pub proof fn law_hits_come_in_order(
    root: Seq<char>,
    files: Seq<SourceFile>,
    file: SourceFile,
    wanted: Wanted,
)
    ensures
        hits_in_files(root, files.push(file), wanted) == hits_in_files(root, files, wanted)
            + hits_in_file(root, file, wanted),
        forall|i: int, j: int|
            0 <= i < j < hits_in_file(root, file, wanted).len() ==> (#[trigger] hits_in_file(
                root,
                file,
                wanted,
            )[i]).line < (#[trigger] hits_in_file(root, file, wanted)[j]).line,
{
    assert(files.push(file).drop_last() =~= files);
    if let Some(text) = file.text {
        lemma_lines_ascend(shown_path(root, file.path@), lines(text@), wanted);
    }
}

} // verus!
