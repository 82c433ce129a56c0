//! Searches for lines that hold one of several texts.

use vstd::prelude::*;
use vstd::utf8::encode_utf8;

use crate::bytes::same_letter;
use crate::bytes::stands_at;
use crate::line_search::LineHit;
use crate::line_search::LineHitView;
use crate::line_search::SourceFile;
use crate::line_search::grep_files;
use crate::line_search::hits_in_files;
use crate::line_search::line_views;
use crate::line_search::smart;
use crate::matcher::has_upper;
use crate::matcher::has_uppercase;
use crate::matcher::reads_at;
use crate::matcher::spans;
use crate::matcher::uppercase;
use crate::newlines::newline_count;
use crate::outline::line_limit;
use crate::pages::at_most;
use crate::paths::display_path;
use crate::paths::shown_path;
use crate::text::lines;
use crate::text::occurs_at;
use crate::text::split_lines;
use crate::text::texts;
use crate::text::trim;
use crate::text::trimmed;

verus! {

/// An automaton that finds several texts at once.
#[verifier::external_type_specification]
#[verifier::external_body]
pub struct ExAhoCorasick(aho_corasick::AhoCorasick);

/// What an automaton was built from: the texts that it finds, and whether it
/// ignores the case of ASCII letters.
pub uninterp spec fn automaton_source(ac: aho_corasick::AhoCorasick) -> (Seq<Seq<char>>, bool);

/// No automaton can be built for the texts.
pub uninterp spec fn automaton_refused(needles: Seq<Seq<char>>, case_insensitive: bool) -> bool;

/// The successive non-overlapping matches of an automaton, each as its start
/// and end.
pub uninterp spec fn automaton_matches(
    needles: Seq<Seq<char>>,
    case_insensitive: bool,
    haystack: Seq<u8>,
) -> Seq<(int, int)>;

/// Where the matches of an automaton start, from the left.
pub open spec fn automaton_starts(
    needles: Seq<Seq<char>>,
    case_insensitive: bool,
    haystack: Seq<u8>,
) -> Seq<int> {
    automaton_matches(needles, case_insensitive, haystack).map_values(|m: (int, int)| m.0)
}

/// `aho_corasick::AhoCorasickBuilder`, with `ascii_case_insensitive` as given
/// and matches as soon as they are seen: an automaton for the texts, unless it
/// would be too large. That depends on the texts and the flag alone.
#[verifier::external_body]
fn automaton_build(needles: &Vec<String>, case_insensitive: bool) -> (res: Option<
    aho_corasick::AhoCorasick,
>)
    ensures
        match res {
            Some(ac) => {
                &&& !automaton_refused(texts(needles@), case_insensitive)
                &&& automaton_source(ac) == (texts(needles@), case_insensitive)
            },
            None => automaton_refused(texts(needles@), case_insensitive),
        },
{
    aho_corasick::AhoCorasickBuilder::new()
        .ascii_case_insensitive(case_insensitive)
        .build(needles)
        .ok()
}

/// `aho_corasick::AhoCorasick::find_iter`, collected: the start and end of each
/// match, which depend on the texts, the flag and the haystack alone. A match is
/// one of the texts. Matches are reported as they are seen: where a text stands,
/// and none of the texts is empty, a match ends within it, if not that very one.
#[verifier::external_body]
fn automaton_find_all(ac: &aho_corasick::AhoCorasick, haystack: &[u8]) -> (res: Vec<(usize, usize)>)
    ensures
        spans(res@) == automaton_matches(
            automaton_source(*ac).0,
            automaton_source(*ac).1,
            haystack@,
        ),
        forall|i: int|
            0 <= i < res@.len() ==> one_stands_from_to(
                automaton_source(*ac).0,
                automaton_source(*ac).1,
                haystack@,
                spans(res@)[i],
            ),
        none_empty(automaton_source(*ac).0) ==> forall|p: int, q: int|
            one_stands_from_to(
                automaton_source(*ac).0,
                automaton_source(*ac).1,
                haystack@,
                (p, q),
            ) ==> ends_within(spans(res@), p, q),
{
    ac.find_iter(haystack).map(|m| (m.start(), m.end())).collect()
}

/// One of the texts stands from the first position to before the second.
pub open spec fn one_stands_from_to(
    needles: Seq<Seq<char>>,
    case_insensitive: bool,
    haystack: Seq<u8>,
    m: (int, int),
) -> bool {
    exists|k: int|
        0 <= k < needles.len() && m.1 == m.0 + encode_utf8(#[trigger] needles[k]).len()
            && stands_at(haystack, encode_utf8(needles[k]), case_insensitive, m.0)
}

/// None of the texts is empty.
pub open spec fn none_empty(needles: Seq<Seq<char>>) -> bool {
    forall|k: int| 0 <= k < needles.len() ==> (#[trigger] needles[k]).len() > 0
}

/// One of the matches ends behind `p` and not behind `q`.
pub open spec fn ends_within(matches: Seq<(int, int)>, p: int, q: int) -> bool {
    exists|i: int| 0 <= i < matches.len() && p < (#[trigger] matches[i]).1 <= q
}

/// The line at a position, or an empty one behind the last.
pub open spec fn line_at(text: Seq<Seq<char>>, n: int) -> Seq<char> {
    if 0 <= n < text.len() {
        text[n]
    } else {
        seq![]
    }
}

/// The hit of a match that starts at `start`.
pub open spec fn match_hit(path: Seq<char>, text: Seq<char>, start: int) -> LineHitView {
    let before = newline_count(encode_utf8(text).take(start)) as int;
    LineHitView {
        path,
        line: line_limit(before + 1),
        text: trimmed(line_at(lines(text), before), None),
    }
}

/// A hit on the same line is there already.
pub open spec fn is_listed(hits: Seq<LineHitView>, h: LineHitView) -> bool {
    exists|i: int|
        0 <= i < hits.len() && (#[trigger] hits[i]).path == h.path && hits[i].line == h.line
}

/// The hits once the matches of a file have joined them: one to a line, and no
/// more than `limit` in all.
pub open spec fn with_matches(
    hits: Seq<LineHitView>,
    path: Seq<char>,
    text: Seq<char>,
    starts: Seq<int>,
    limit: int,
) -> Seq<LineHitView>
    decreases starts.len(),
{
    if starts.len() == 0 {
        hits
    } else {
        let so_far = with_matches(hits, path, text, starts.drop_last(), limit);
        let h = match_hit(path, text, starts.last());
        if so_far.len() >= limit || is_listed(so_far, h) {
            so_far
        } else {
            so_far.push(h)
        }
    }
}

/// The hits once a file has been searched.
pub open spec fn with_file(
    hits: Seq<LineHitView>,
    root: Seq<char>,
    path: Seq<char>,
    text: Seq<char>,
    needles: Seq<Seq<char>>,
    case_insensitive: bool,
    limit: int,
) -> Seq<LineHitView> {
    with_matches(
        hits,
        shown_path(root, path),
        text,
        automaton_starts(needles, case_insensitive, encode_utf8(text)),
        limit,
    )
}

/// None of the texts holds a newline.
pub open spec fn on_one_line(needles: Seq<Seq<char>>) -> bool {
    forall|k: int| 0 <= k < needles.len() ==> !encode_utf8(#[trigger] needles[k]).contains(10u8)
}

/// Wherever one of the texts stands in a file, its line is listed.
pub open spec fn lists_all(
    hits: Seq<LineHitView>,
    root: Seq<char>,
    path: Seq<char>,
    text: Seq<char>,
    needles: Seq<Seq<char>>,
    case_insensitive: bool,
) -> bool {
    forall|p: int, q: int| #[trigger]
        one_stands_from_to(needles, case_insensitive, encode_utf8(text), (p, q)) ==> is_listed(
            hits,
            match_hit(shown_path(root, path), text, p),
        )
}

/// The hit is that of a line on which one of the texts starts.
pub open spec fn is_found(
    h: LineHitView,
    root: Seq<char>,
    path: Seq<char>,
    text: Seq<char>,
    needles: Seq<Seq<char>>,
    case_insensitive: bool,
) -> bool {
    exists|p: int, q: int| #[trigger]
        one_stands_from_to(needles, case_insensitive, encode_utf8(text), (p, q)) && h == match_hit(
            shown_path(root, path),
            text,
            p,
        )
}

/// What is listed stays listed.
proof fn lemma_stays_listed(
    hits: Seq<LineHitView>,
    path: Seq<char>,
    text: Seq<char>,
    starts: Seq<int>,
    limit: int,
    h: LineHitView,
)
    requires
        is_listed(hits, h),
    ensures
        is_listed(with_matches(hits, path, text, starts, limit), h),
    decreases starts.len(),
{
    if starts.len() > 0 {
        lemma_stays_listed(hits, path, text, starts.drop_last(), limit, h);
        let so_far = with_matches(hits, path, text, starts.drop_last(), limit);
        let all = with_matches(hits, path, text, starts, limit);
        let i = choose|i: int|
            0 <= i < so_far.len() && (#[trigger] so_far[i]).path == h.path && so_far[i].line
                == h.line;
        assert(all[i] == so_far[i]);
    }
}

/// Each match is listed, unless there are enough hits.
proof fn lemma_matches_listed(
    hits: Seq<LineHitView>,
    path: Seq<char>,
    text: Seq<char>,
    starts: Seq<int>,
    limit: int,
    k: int,
)
    requires
        0 <= k < starts.len(),
        with_matches(hits, path, text, starts, limit).len() < limit,
    ensures
        is_listed(
            with_matches(hits, path, text, starts, limit),
            match_hit(path, text, starts[k]),
        ),
    decreases starts.len(),
{
    let front = starts.drop_last();
    let so_far = with_matches(hits, path, text, front, limit);
    let all = with_matches(hits, path, text, starts, limit);
    if k < front.len() {
        lemma_matches_listed(hits, path, text, front, limit, k);
        let h = match_hit(path, text, starts[k]);
        let i = choose|i: int|
            0 <= i < so_far.len() && (#[trigger] so_far[i]).path == h.path && so_far[i].line
                == h.line;
        assert(all[i] == so_far[i]);
    } else if !is_listed(so_far, match_hit(path, text, starts[k])) {
        assert(all[so_far.len() as int] == match_hit(path, text, starts[k]));
    }
}

/// What joins the hits is the hit of a match.
proof fn lemma_only_matches(
    hits: Seq<LineHitView>,
    path: Seq<char>,
    text: Seq<char>,
    starts: Seq<int>,
    limit: int,
    i: int,
)
    requires
        0 <= i < with_matches(hits, path, text, starts, limit).len(),
    ensures
        hits.len() <= with_matches(hits, path, text, starts, limit).len(),
        i < hits.len() ==> with_matches(hits, path, text, starts, limit)[i] == hits[i],
        i >= hits.len() ==> exists|k: int|
            0 <= k < starts.len() && with_matches(hits, path, text, starts, limit)[i] == match_hit(
                path,
                text,
                #[trigger] starts[k],
            ),
    decreases starts.len(),
{
    if starts.len() > 0 {
        let front = starts.drop_last();
        let so_far = with_matches(hits, path, text, front, limit);
        let all = with_matches(hits, path, text, starts, limit);
        if i < so_far.len() {
            lemma_only_matches(hits, path, text, front, limit, i);
            if i >= hits.len() {
                let k = choose|k: int|
                    0 <= k < front.len() && so_far[i] == match_hit(path, text, #[trigger] front[k]);
                assert(starts[k] == front[k]);
            }
        } else {
            assert(all[i] == match_hit(path, text, starts[starts.len() - 1]));
            if so_far.len() > 0 {
                lemma_only_matches(hits, path, text, front, limit, so_far.len() - 1);
            } else {
                lemma_no_fewer(hits, path, text, front, limit);
            }
        }
    }
}

proof fn lemma_no_fewer(
    hits: Seq<LineHitView>,
    path: Seq<char>,
    text: Seq<char>,
    starts: Seq<int>,
    limit: int,
)
    ensures
        hits.len() <= with_matches(hits, path, text, starts, limit).len(),
    decreases starts.len(),
{
    if starts.len() > 0 {
        lemma_no_fewer(hits, path, text, starts.drop_last(), limit);
    }
}

/// Where no newline stands between two positions, as many stand before each.
proof fn lemma_same_line(h: Seq<u8>, a: int, b: int)
    requires
        0 <= a <= b <= h.len(),
        forall|i: int| a <= i < b ==> h[i] != 10,
    ensures
        newline_count(h.take(a)) == newline_count(h.take(b)),
    decreases b - a,
{
    if a < b {
        lemma_same_line(h, a, b - 1);
        assert(h.take(b).drop_last() =~= h.take(b - 1));
    }
}

/// A text without a newline stands where there is none.
proof fn lemma_no_newline(
    needles: Seq<Seq<char>>,
    case_insensitive: bool,
    h: Seq<u8>,
    m: (int, int),
)
    requires
        on_one_line(needles),
        one_stands_from_to(needles, case_insensitive, h, m),
    ensures
        0 <= m.0 <= m.1 <= h.len(),
        forall|i: int| m.0 <= i < m.1 ==> h[i] != 10,
{
    let k = choose|k: int|
        0 <= k < needles.len() && m.1 == m.0 + encode_utf8(#[trigger] needles[k]).len()
            && stands_at(h, encode_utf8(needles[k]), case_insensitive, m.0);
    let n = encode_utf8(needles[k]);
    assert forall|i: int| m.0 <= i < m.1 implies h[i] != 10 by {
        let j = i - m.0;
        assert(n.contains(n[j]));
        if case_insensitive {
            assert(same_letter(h[m.0 + j], n[j]));
        } else {
            assert(h.subrange(m.0, m.1)[j] == h[i]);
        }
    }
}

/// Where the matches are those of an automaton, none of the texts is missed.
proof fn lemma_lists_all(
    hits: Seq<LineHitView>,
    root: Seq<char>,
    path: Seq<char>,
    text: Seq<char>,
    needles: Seq<Seq<char>>,
    case_insensitive: bool,
    limit: int,
)
    requires
        on_one_line(needles),
        with_file(hits, root, path, text, needles, case_insensitive, limit).len() < limit,
        forall|i: int|
            0 <= i < automaton_matches(needles, case_insensitive, encode_utf8(text)).len()
                ==> one_stands_from_to(
                needles,
                case_insensitive,
                encode_utf8(text),
                #[trigger] automaton_matches(needles, case_insensitive, encode_utf8(text))[i],
            ),
        forall|p: int, q: int| #[trigger]
            one_stands_from_to(needles, case_insensitive, encode_utf8(text), (p, q))
                ==> ends_within(
                automaton_matches(needles, case_insensitive, encode_utf8(text)),
                p,
                q,
            ),
    ensures
        lists_all(
            with_file(hits, root, path, text, needles, case_insensitive, limit),
            root,
            path,
            text,
            needles,
            case_insensitive,
        ),
{
    let h = encode_utf8(text);
    let matches = automaton_matches(needles, case_insensitive, h);
    let starts = automaton_starts(needles, case_insensitive, h);
    let shown = shown_path(root, path);
    assert forall|p: int, q: int| #[trigger]
        one_stands_from_to(needles, case_insensitive, h, (p, q)) implies is_listed(
        with_file(hits, root, path, text, needles, case_insensitive, limit),
        match_hit(shown, text, p),
    ) by {
        assert(ends_within(matches, p, q));
        let i = choose|i: int| 0 <= i < matches.len() && p < (#[trigger] matches[i]).1 <= q;
        let m = matches[i];
        lemma_no_newline(needles, case_insensitive, h, m);
        lemma_no_newline(needles, case_insensitive, h, (p, q));
        if m.0 <= p {
            lemma_same_line(h, m.0, p);
        } else {
            lemma_same_line(h, p, m.0);
        }
        assert(starts[i] == m.0);
        lemma_matches_listed(hits, shown, text, starts, limit, i);
    }
}

/// None of the texts holds an upper-case character.
pub open spec fn ignores_case(needles: Seq<Seq<char>>) -> bool {
    forall|i: int| 0 <= i < needles.len() ==> !has_upper(#[trigger] needles[i])
}

/// A search for lines that hold one of several texts.
pub struct MultiSearch {
    ac: aho_corasick::AhoCorasick,
    limit: usize,
    hits: Vec<LineHit>,
}

/// How many newlines stand before a position.
fn newlines_before(bytes: &[u8], at: usize) -> (res: usize)
    requires
        at <= bytes@.len(),
    ensures
        res == newline_count(bytes@.take(at as int)),
        res <= at,
{
    let mut n: usize = 0;
    let mut i: usize = 0;
    assert(bytes@.take(0) =~= seq![]);
    while i < at
        invariant
            i <= at <= bytes@.len(),
            n <= i,
            n == newline_count(bytes@.take(i as int)),
        decreases at - i,
    {
        assert(bytes@.take(i + 1).drop_last() =~= bytes@.take(i as int));
        if bytes[i] == 10 {
            n = n + 1;
        }
        i = i + 1;
    }
    n
}

/// Whether a hit on the same line is there already.
fn has_line(hits: &Vec<LineHit>, path: &str, line: usize) -> (res: bool)
    ensures
        res == (exists|i: int|
            0 <= i < hits@.len() && (#[trigger] line_views(hits@)[i]).path == path@ && line_views(
                hits@,
            )[i].line == line),
{
    let mut i: usize = 0;
    while i < hits.len()
        invariant
            i <= hits@.len(),
            forall|k: int|
                0 <= k < i ==> !((#[trigger] line_views(hits@)[k]).path == path@ && line_views(
                    hits@,
                )[k].line == line),
        decreases hits@.len() - i,
    {
        assert(line_views(hits@)[i as int] == hits@[i as int]@);
        if hits[i].line == line && *hits[i].path.as_str() == *path {
            return true;
        }
        i = i + 1;
    }
    false
}

impl MultiSearch {
    /// What is looked for, and whether case is left aside.
    pub closed spec fn spec_source(self) -> (Seq<Seq<char>>, bool) {
        automaton_source(self.ac)
    }

    /// How many hits are wanted.
    pub closed spec fn spec_limit(self) -> usize {
        self.limit
    }

    /// The hits so far.
    pub closed spec fn spec_hits(self) -> Seq<LineHitView> {
        line_views(self.hits@)
    }

    /// A search for several texts, which heeds case if one of them holds an
    /// upper-case character. None where they are too many for one automaton.
    pub fn new(needles: &Vec<String>, limit: usize) -> (res: Option<MultiSearch>)
        ensures
            match res {
                Some(search) => {
                    &&& !automaton_refused(texts(needles@), ignores_case(texts(needles@)))
                    &&& search.spec_source() == (texts(needles@), ignores_case(texts(needles@)))
                    &&& search.spec_limit() == limit
                    &&& search.spec_hits() == Seq::<LineHitView>::empty()
                },
                None => automaton_refused(texts(needles@), ignores_case(texts(needles@))),
            },
    {
        let mut insensitive = true;
        let mut i: usize = 0;
        while i < needles.len()
            invariant
                i <= needles@.len(),
                insensitive == forall|k: int|
                    0 <= k < i ==> !has_upper(#[trigger] texts(needles@)[k]),
            decreases needles@.len() - i,
        {
            assert(texts(needles@)[i as int] == needles@[i as int]@);
            if has_uppercase(needles[i].as_str()) {
                insensitive = false;
            }
            i = i + 1;
        }
        assert(texts(needles@).len() == needles@.len());
        assert(insensitive == ignores_case(texts(needles@)));
        match automaton_build(needles, insensitive) {
            Some(ac) => {
                let hits: Vec<LineHit> = Vec::new();
                assert(line_views(hits@) =~= seq![]);
                Some(MultiSearch { ac, limit, hits })
            },
            None => None,
        }
    }

    /// Whether there are as many hits as wanted, so that no more files have to
    /// be read.
    pub fn is_full(&self) -> (res: bool)
        ensures
            res == (self.spec_hits().len() >= self.spec_limit()),
    {
        self.hits.len() >= self.limit
    }

    /// Adds the lines of a file on which the given matches start; `path` is how
    /// the file is shown.
    pub fn add_matches(&mut self, path: &str, text: &str, found: &Vec<(usize, usize)>)
        requires
            forall|k: int|
                0 <= k < found@.len() ==> (#[trigger] found@[k]).0 <= encode_utf8(text@).len(),
        ensures
            final(self).spec_source() == old(self).spec_source(),
            final(self).spec_limit() == old(self).spec_limit(),
            final(self).spec_hits() == with_matches(
                old(self).spec_hits(),
                path@,
                text@,
                spans(found@).map_values(|m: (int, int)| m.0),
                old(self).spec_limit() as int,
            ),
    {
        let bytes = text.as_bytes();
        let all = split_lines(text);
        let ghost from = spans(found@).map_values(|m: (int, int)| m.0);
        let ghost before = self.spec_hits();
        let mut i: usize = 0;
        assert(from.take(0) =~= seq![]);
        assert(texts(all@).len() == all@.len());
        while i < found.len()
            invariant
                i <= found@.len(),
                bytes@ == encode_utf8(text@),
                from == spans(found@).map_values(|m: (int, int)| m.0),
                forall|k: int| 0 <= k < found@.len() ==> (#[trigger] found@[k]).0 <= bytes@.len(),
                texts(all@) == lines(text@),
                texts(all@).len() == all@.len(),
                self.ac == old(self).ac,
                self.limit == old(self).limit,
                self.spec_hits() == with_matches(
                    before,
                    path@,
                    text@,
                    from.take(i as int),
                    self.limit as int,
                ),
            decreases found@.len() - i,
        {
            let start = found[i].0;
            let ghost so_far = self.spec_hits();
            assert(so_far.len() == self.hits@.len());
            assert(from.take(i + 1).drop_last() =~= from.take(i as int));
            assert(from.take(i + 1).last() == start);
            if self.hits.len() < self.limit {
                let above = newlines_before(bytes, start);
                let ghost h = match_hit(path@, text@, start as int);
                let line = above.saturating_add(1);
                let listed = has_line(&self.hits, path, line);
                assert(listed == is_listed(so_far, h));
                if !listed {
                    let picked = if above < all.len() {
                        all[above].clone()
                    } else {
                        String::new()
                    };
                    assert(picked@ =~= line_at(lines(text@), above as int));
                    let hit = LineHit {
                        path: path.to_owned(),
                        line,
                        text: trim(picked.as_str(), None),
                    };
                    assert(hit@ =~= h);
                    let ghost before_push = self.hits@;
                    self.hits.push(hit);
                    assert(line_views(self.hits@) =~= line_views(before_push).push(h));
                }
            }
            i = i + 1;
        }
        assert(from.take(i as int) =~= from);
    }

    /// Searches a file.
    pub fn add_file(&mut self, root: &str, path: &str, text: &str)
        ensures
            final(self).spec_source() == old(self).spec_source(),
            final(self).spec_limit() == old(self).spec_limit(),
            final(self).spec_hits() == with_file(
                old(self).spec_hits(),
                root@,
                path@,
                text@,
                old(self).spec_source().0,
                old(self).spec_source().1,
                old(self).spec_limit() as int,
            ),
            none_empty(old(self).spec_source().0) && on_one_line(old(self).spec_source().0)
                && final(self).spec_hits().len() < old(self).spec_limit() ==> lists_all(
                final(self).spec_hits(),
                root@,
                path@,
                text@,
                old(self).spec_source().0,
                old(self).spec_source().1,
            ),
            forall|i: int|
                old(self).spec_hits().len() <= i < final(self).spec_hits().len() ==> is_found(
                    #[trigger] final(self).spec_hits()[i],
                    root@,
                    path@,
                    text@,
                    old(self).spec_source().0,
                    old(self).spec_source().1,
                ),
    {
        let bytes = text.as_bytes();
        let found = automaton_find_all(&self.ac, bytes);
        let shown = display_path(root, path);
        let ghost from = spans(found@).map_values(|m: (int, int)| m.0);
        let ghost before = self.spec_hits();
        assert forall|k: int| 0 <= k < found@.len() implies (#[trigger] found@[k]).0
            <= bytes@.len() by {
            assert(spans(found@)[k] == (found@[k].0 as int, found@[k].1 as int));
        }
        self.add_matches(shown.as_str(), text, &found);
        proof {
            let (needles, ci) = self.spec_source();
            let limit = self.limit as int;
            let after = self.spec_hits();
            if none_empty(needles) && on_one_line(needles) && after.len() < limit {
                lemma_lists_all(before, root@, path@, text@, needles, ci, limit);
            }
            assert forall|k: int| before.len() <= k < after.len() implies is_found(
                #[trigger] after[k],
                root@,
                path@,
                text@,
                needles,
                ci,
            ) by {
                lemma_only_matches(before, shown@, text@, from, limit, k);
                let n = choose|n: int|
                    0 <= n < from.len() && after[k] == match_hit(
                        shown@,
                        text@,
                        #[trigger] from[n],
                    );
                let m = spans(found@)[n];
                assert(one_stands_from_to(needles, ci, bytes@, (m.0, m.1)));
            }
        }
    }

    /// The hits.
    pub fn into_hits(self) -> (res: Vec<LineHit>)
        ensures
            line_views(res@) == self.spec_hits(),
    {
        self.hits
    }
}

/// The hits of a search for several texts in files.
pub open spec fn multi_hits(
    root: Seq<char>,
    files: Seq<SourceFile>,
    needles: Seq<Seq<char>>,
    case_insensitive: bool,
    limit: int,
) -> Seq<LineHitView>
    decreases files.len(),
{
    if files.len() == 0 {
        seq![]
    } else {
        let so_far = multi_hits(root, files.drop_last(), needles, case_insensitive, limit);
        match files.last().text {
            Some(text) => with_file(
                so_far,
                root,
                files.last().path@,
                text@,
                needles,
                case_insensitive,
                limit,
            ),
            None => so_far,
        }
    }
}

/// The hits of searches for one text after the other.
pub open spec fn one_by_one(
    root: Seq<char>,
    files: Seq<SourceFile>,
    needles: Seq<Seq<char>>,
    limit: int,
) -> Seq<LineHitView>
    decreases needles.len(),
{
    if needles.len() == 0 {
        seq![]
    } else {
        let so_far = one_by_one(root, files, needles.drop_last(), limit);
        so_far + at_most(
            hits_in_files(root, files, smart(needles.last())),
            limit - so_far.len(),
        )
    }
}

/// Once there are enough hits, no more join them.
proof fn lemma_enough(
    hits: Seq<LineHitView>,
    path: Seq<char>,
    text: Seq<char>,
    starts: Seq<int>,
    limit: int,
)
    requires
        hits.len() >= limit,
    ensures
        with_matches(hits, path, text, starts, limit) == hits,
    decreases starts.len(),
{
    if starts.len() > 0 {
        lemma_enough(hits, path, text, starts.drop_last(), limit);
    }
}

proof fn lemma_enough_files(
    root: Seq<char>,
    files: Seq<SourceFile>,
    k: int,
    needles: Seq<Seq<char>>,
    case_insensitive: bool,
    limit: int,
)
    requires
        0 <= k <= files.len(),
        multi_hits(root, files.take(k), needles, case_insensitive, limit).len() >= limit,
    ensures
        multi_hits(root, files, needles, case_insensitive, limit) == multi_hits(
            root,
            files.take(k),
            needles,
            case_insensitive,
            limit,
        ),
    decreases files.len(),
{
    if k == files.len() {
        assert(files.take(k) =~= files);
    } else {
        let front = files.drop_last();
        assert(front.take(k) =~= files.take(k));
        lemma_enough_files(root, front, k, needles, case_insensitive, limit);
        let so_far = multi_hits(root, front, needles, case_insensitive, limit);
        match files.last().text {
            Some(text) => {
                lemma_enough(
                    so_far,
                    shown_path(root, files.last().path@),
                    text@,
                    automaton_starts(needles, case_insensitive, encode_utf8(text@)),
                    limit,
                );
            },
            None => {},
        }
    }
}

/// Searches files for one text after the other.
pub fn grep_one_by_one(root: &str, files: &Vec<SourceFile>, needles: &Vec<String>, limit: usize) -> (res:
    Vec<LineHit>)
    ensures
        line_views(res@) == one_by_one(root@, files@, texts(needles@), limit as int),
{
    let ghost all = texts(needles@);
    let mut res: Vec<LineHit> = Vec::new();
    let mut i: usize = 0;
    assert(all.take(0) =~= seq![]);
    assert(line_views(res@) =~= seq![]);
    while i < needles.len()
        invariant
            i <= needles@.len(),
            all == texts(needles@),
            res@.len() <= limit,
            line_views(res@) == one_by_one(root@, files@, all.take(i as int), limit as int),
        decreases needles@.len() - i,
    {
        let ghost before = line_views(res@);
        let mut more = grep_files(root, files, needles[i].as_str(), limit - res.len());
        let ghost found = line_views(more@);
        assert(found.len() == more@.len());
        assert(all.take(i + 1).drop_last() =~= all.take(i as int));
        assert(all.take(i + 1).last() == needles@[i as int]@);
        res.append(&mut more);
        assert(line_views(res@) =~= before + found);
        i = i + 1;
    }
    assert(all.take(i as int) =~= all);
    res
}

/// Wherever one of the texts stands in one of the files, its line is listed.
pub open spec fn lists_all_in(
    hits: Seq<LineHitView>,
    root: Seq<char>,
    files: Seq<SourceFile>,
    needles: Seq<Seq<char>>,
    case_insensitive: bool,
) -> bool {
    forall|j: int|
        0 <= j < files.len() && (#[trigger] files[j]).text is Some ==> lists_all(
            hits,
            root,
            files[j].path@,
            files[j].text->0@,
            needles,
            case_insensitive,
        )
}

/// The hit is that of a line of one of the files on which one of the texts
/// starts.
pub open spec fn is_found_in(
    h: LineHitView,
    root: Seq<char>,
    files: Seq<SourceFile>,
    needles: Seq<Seq<char>>,
    case_insensitive: bool,
) -> bool {
    exists|j: int|
        0 <= j < files.len() && (#[trigger] files[j]).text is Some && is_found(
            h,
            root,
            files[j].path@,
            files[j].text->0@,
            needles,
            case_insensitive,
        )
}

/// Each hit is that of a line of one of the files on which one of the texts
/// starts.
pub open spec fn lists_only(
    hits: Seq<LineHitView>,
    root: Seq<char>,
    files: Seq<SourceFile>,
    needles: Seq<Seq<char>>,
    case_insensitive: bool,
) -> bool {
    forall|k: int|
        0 <= k < hits.len() ==> is_found_in(
            #[trigger] hits[k],
            root,
            files,
            needles,
            case_insensitive,
        )
}

/// With one file more, nothing is lost.
proof fn lemma_next_file(
    hits: Seq<LineHitView>,
    root: Seq<char>,
    files: Seq<SourceFile>,
    needles: Seq<Seq<char>>,
    case_insensitive: bool,
    limit: int,
)
    requires
        files.len() > 0,
        files.last().text is Some,
    ensures
        ({
            let text = files.last().text->0@;
            let after = with_file(
                hits,
                root,
                files.last().path@,
                text,
                needles,
                case_insensitive,
                limit,
            );
            &&& hits.len() <= after.len()
            &&& lists_all_in(hits, root, files.drop_last(), needles, case_insensitive)
                && lists_all(
                after,
                root,
                files.last().path@,
                text,
                needles,
                case_insensitive,
            ) ==> lists_all_in(after, root, files, needles, case_insensitive)
            &&& lists_only(hits, root, files.drop_last(), needles, case_insensitive) && (forall|i:
                int|
                hits.len() <= i < after.len() ==> is_found(
                    #[trigger] after[i],
                    root,
                    files.last().path@,
                    text,
                    needles,
                    case_insensitive,
                )) ==> lists_only(after, root, files, needles, case_insensitive)
        }),
{
    let front = files.drop_last();
    let text = files.last().text->0@;
    let shown = shown_path(root, files.last().path@);
    let starts = automaton_starts(needles, case_insensitive, encode_utf8(text));
    let after = with_matches(hits, shown, text, starts, limit);
    lemma_no_fewer(hits, shown, text, starts, limit);
    if lists_all_in(hits, root, front, needles, case_insensitive) && lists_all(
        after,
        root,
        files.last().path@,
        text,
        needles,
        case_insensitive,
    ) {
        assert forall|j: int| 0 <= j < files.len() && (#[trigger] files[j]).text is Some implies lists_all(
            after,
            root,
            files[j].path@,
            files[j].text->0@,
            needles,
            case_insensitive,
        ) by {
            if j < front.len() {
                assert(front[j] == files[j]);
                let (path, t) = (files[j].path@, files[j].text->0@);
                assert forall|p: int, q: int| #[trigger]
                    one_stands_from_to(needles, case_insensitive, encode_utf8(t), (p, q)) implies is_listed(
                    after,
                    match_hit(shown_path(root, path), t, p),
                ) by {
                    lemma_stays_listed(
                        hits,
                        shown,
                        text,
                        starts,
                        limit,
                        match_hit(shown_path(root, path), t, p),
                    );
                }
            }
        }
    }
    if lists_only(hits, root, front, needles, case_insensitive) && (forall|i: int|
        hits.len() <= i < after.len() ==> is_found(
            #[trigger] after[i],
            root,
            files.last().path@,
            text,
            needles,
            case_insensitive,
        )) {
        assert forall|k: int| 0 <= k < after.len() implies is_found_in(
            #[trigger] after[k],
            root,
            files,
            needles,
            case_insensitive,
        ) by {
            if k < hits.len() {
                lemma_only_matches(hits, shown, text, starts, limit, k);
                assert(is_found_in(hits[k], root, front, needles, case_insensitive));
                let j = choose|j: int|
                    0 <= j < front.len() && (#[trigger] front[j]).text is Some && is_found(
                        hits[k],
                        root,
                        front[j].path@,
                        front[j].text->0@,
                        needles,
                        case_insensitive,
                    );
                assert(files[j] == front[j]);
            } else {
                assert(files[files.len() - 1] == files.last());
            }
        }
    }
}

/// A file that could not be read changes nothing.
proof fn lemma_unread_file(
    hits: Seq<LineHitView>,
    root: Seq<char>,
    files: Seq<SourceFile>,
    needles: Seq<Seq<char>>,
    case_insensitive: bool,
)
    requires
        files.len() > 0,
        files.last().text is None,
    ensures
        lists_all_in(hits, root, files.drop_last(), needles, case_insensitive) ==> lists_all_in(
            hits,
            root,
            files,
            needles,
            case_insensitive,
        ),
        lists_only(hits, root, files.drop_last(), needles, case_insensitive) ==> lists_only(
            hits,
            root,
            files,
            needles,
            case_insensitive,
        ),
{
    let front = files.drop_last();
    assert forall|j: int| 0 <= j < files.len() && (#[trigger] files[j]).text is Some implies j
        < front.len() && front[j] == files[j] by {}
    assert(files.take(front.len() as int) =~= front);
    lemma_more_files(hits, root, files, front.len() as int, needles, case_insensitive);
    if lists_all_in(hits, root, front, needles, case_insensitive) {
        assert forall|j: int| 0 <= j < files.len() && (#[trigger] files[j]).text is Some implies lists_all(
            hits,
            root,
            files[j].path@,
            files[j].text->0@,
            needles,
            case_insensitive,
        ) by {
            assert(front[j].text is Some);
        }
    }
}

/// What comes from the first files comes from the files.
proof fn lemma_more_files(
    hits: Seq<LineHitView>,
    root: Seq<char>,
    files: Seq<SourceFile>,
    n: int,
    needles: Seq<Seq<char>>,
    case_insensitive: bool,
)
    requires
        0 <= n <= files.len(),
    ensures
        lists_only(hits, root, files.take(n), needles, case_insensitive) ==> lists_only(
            hits,
            root,
            files,
            needles,
            case_insensitive,
        ),
{
    let front = files.take(n);
    if lists_only(hits, root, front, needles, case_insensitive) {
        assert forall|k: int| 0 <= k < hits.len() implies is_found_in(
            #[trigger] hits[k],
            root,
            files,
            needles,
            case_insensitive,
        ) by {
            assert(is_found_in(hits[k], root, front, needles, case_insensitive));
            let j = choose|j: int|
                0 <= j < front.len() && (#[trigger] front[j]).text is Some && is_found(
                    hits[k],
                    root,
                    front[j].path@,
                    front[j].text->0@,
                    needles,
                    case_insensitive,
                );
            assert(files[j] == front[j]);
        }
    }
}

/// Searches files for the lines that hold one of several texts: all at once,
/// or where no automaton can be built for them one after the other. Only lines
/// on which one of the texts starts are listed, and unless there are enough of
/// them none is missed.
pub fn multi_grep_files(root: &str, files: &Vec<SourceFile>, needles: &Vec<String>, limit: usize) -> (res:
    Vec<LineHit>)
    ensures
        line_views(res@) == if needles@.len() == 0 || limit == 0 {
            seq![]
        } else if automaton_refused(texts(needles@), ignores_case(texts(needles@))) {
            one_by_one(root@, files@, texts(needles@), limit as int)
        } else {
            multi_hits(
                root@,
                files@,
                texts(needles@),
                ignores_case(texts(needles@)),
                limit as int,
            )
        },
        !automaton_refused(texts(needles@), ignores_case(texts(needles@))) ==> lists_only(
            line_views(res@),
            root@,
            files@,
            texts(needles@),
            ignores_case(texts(needles@)),
        ),
        !automaton_refused(texts(needles@), ignores_case(texts(needles@))) && needles@.len() > 0
            && none_empty(texts(needles@)) && on_one_line(texts(needles@)) && res@.len() < limit
            ==> lists_all_in(
            line_views(res@),
            root@,
            files@,
            texts(needles@),
            ignores_case(texts(needles@)),
        ),
{
    if needles.len() == 0 || limit == 0 {
        let none: Vec<LineHit> = Vec::new();
        assert(line_views(none@) =~= seq![]);
        return none;
    }
    let mut search = match MultiSearch::new(needles, limit) {
        Some(search) => search,
        None => {
            return grep_one_by_one(root, files, needles, limit);
        },
    };
    let ghost (all, ci) = (texts(needles@), ignores_case(texts(needles@)));
    let mut i: usize = 0;
    assert(files@.take(0) =~= seq![]);
    while i < files.len() && !search.is_full()
        invariant
            i <= files@.len(),
            search.spec_source() == (all, ci),
            search.spec_limit() == limit,
            search.spec_hits() == multi_hits(
                root@,
                files@.take(i as int),
                all,
                ci,
                limit as int,
            ),
            lists_only(search.spec_hits(), root@, files@.take(i as int), all, ci),
            none_empty(all) && on_one_line(all) && search.spec_hits().len() < limit
                ==> lists_all_in(search.spec_hits(), root@, files@.take(i as int), all, ci),
        decreases files@.len() - i,
    {
        let file = &files[i];
        let ghost before = search.spec_hits();
        let ghost (old_list, list) = (files@.take(i as int), files@.take(i + 1));
        assert(list.drop_last() =~= old_list);
        assert(list.last() == file);
        match &file.text {
            Some(text) => {
                search.add_file(root, file.path.as_str(), text.as_str());
                proof {
                    lemma_next_file(before, root@, list, all, ci, limit as int);
                }
            },
            None => {
                proof {
                    lemma_unread_file(before, root@, list, all, ci);
                }
            },
        }
        i = i + 1;
    }
    proof {
        if i == files@.len() {
            assert(files@.take(i as int) =~= files@);
        } else {
            lemma_more_files(search.spec_hits(), root@, files@, i as int, all, ci);
            lemma_enough_files(root@, files@, i as int, all, ci, limit as int);
        }
    }
    search.into_hits()
}

/// Each line is listed once.
pub open spec fn lines_once(hits: Seq<LineHitView>) -> bool {
    forall|i: int, j: int|
        0 <= i < j < hits.len() ==> (#[trigger] hits[i]).path != (#[trigger] hits[j]).path
            || hits[i].line != hits[j].line
}

proof fn lemma_lines_once(
    hits: Seq<LineHitView>,
    path: Seq<char>,
    text: Seq<char>,
    starts: Seq<int>,
    limit: int,
)
    requires
        lines_once(hits),
        hits.len() <= limit,
    ensures
        lines_once(with_matches(hits, path, text, starts, limit)),
        with_matches(hits, path, text, starts, limit).len() <= limit,
    decreases starts.len(),
{
    if starts.len() > 0 {
        lemma_lines_once(hits, path, text, starts.drop_last(), limit);
    }
}

/// A search for several texts lists each line once, and no more lines than
/// asked for.
pub proof fn law_multi_lists_lines_once(
    root: Seq<char>,
    files: Seq<SourceFile>,
    needles: Seq<Seq<char>>,
    case_insensitive: bool,
    limit: int,
)
    requires
        0 <= limit,
    ensures
        lines_once(multi_hits(root, files, needles, case_insensitive, limit)),
        multi_hits(root, files, needles, case_insensitive, limit).len() <= limit,
    decreases files.len(),
{
    if files.len() > 0 {
        law_multi_lists_lines_once(root, files.drop_last(), needles, case_insensitive, limit);
        match files.last().text {
            Some(text) => {
                lemma_lines_once(
                    multi_hits(root, files.drop_last(), needles, case_insensitive, limit),
                    shown_path(root, files.last().path@),
                    text@,
                    automaton_starts(needles, case_insensitive, encode_utf8(text@)),
                    limit,
                );
            },
            None => {},
        }
    }
}

/// One of the texts holds an upper-case character.
pub open spec fn holds_capital(needles: Seq<Seq<char>>) -> bool {
    exists|i: int, k: int|
        0 <= i < needles.len() && 0 <= k < needles[i].len() && uppercase(#[trigger] needles[i][k])
}

proof fn lemma_capital(needles: Seq<Seq<char>>)
    ensures
        ignores_case(needles) <==> !holds_capital(needles),
{
    if holds_capital(needles) {
        let (i, k) = choose|i: int, k: int|
            0 <= i < needles.len() && 0 <= k < needles[i].len() && uppercase(
                #[trigger] needles[i][k],
            );
        assert(has_upper(needles[i]));
    }
    if !ignores_case(needles) {
        let i = choose|i: int| 0 <= i < needles.len() && has_upper(#[trigger] needles[i]);
        let k = choose|k: int| 0 <= k < needles[i].len() && uppercase(#[trigger] needles[i][k]);
        assert(uppercase(needles[i][k]));
    }
}

/// The hit is on the line of the file on which the bytes at `p` stand: it has the
/// path of the file, the number of the line and its text without the white space
/// around it.
pub open spec fn is_hit_at(h: LineHitView, root: Seq<char>, file: SourceFile, p: int) -> bool {
    let n = newline_count(encode_utf8(file.text->0@).take(p));
    &&& h.path == shown_path(root, file.path@)
    &&& n < usize::MAX ==> h.line == n + 1
    &&& n < lines(file.text->0@).len() ==> h.text == trimmed(lines(file.text->0@)[n as int], None)
}

/// If any of the texts holds an upper-case character, whichever it is, each hit
/// is on a line where one of the texts stands byte for byte.
pub proof fn law_one_capital_makes_all_exact(
    hits: Seq<LineHitView>,
    root: Seq<char>,
    files: Seq<SourceFile>,
    needles: Seq<Seq<char>>,
    i: int,
)
    requires
        lists_only(hits, root, files, needles, ignores_case(needles)),
        holds_capital(needles),
        0 <= i < hits.len(),
    ensures
        exists|j: int, p: int, k: int|
            0 <= j < files.len() && 0 <= k < needles.len() && (#[trigger] files[j]).text is Some
                && #[trigger] occurs_at(
                encode_utf8(files[j].text->0@),
                encode_utf8(needles[k]),
                p,
            ) && is_hit_at(hits[i], root, files[j], p),
{
    lemma_capital(needles);
    let h = hits[i];
    assert(is_found_in(h, root, files, needles, false));
    let j = choose|j: int|
        0 <= j < files.len() && (#[trigger] files[j]).text is Some && is_found(
            h,
            root,
            files[j].path@,
            files[j].text->0@,
            needles,
            false,
        );
    let bytes = encode_utf8(files[j].text->0@);
    let (p, q) = choose|p: int, q: int| #[trigger]
        one_stands_from_to(needles, false, bytes, (p, q)) && h == match_hit(
            shown_path(root, files[j].path@),
            files[j].text->0@,
            p,
        );
    let k = choose|k: int|
        0 <= k < needles.len() && q == p + encode_utf8(#[trigger] needles[k]).len() && stands_at(
            bytes,
            encode_utf8(needles[k]),
            false,
            p,
        );
    assert(occurs_at(bytes, encode_utf8(needles[k]), p));
    assert(is_hit_at(h, root, files[j], p));
}

/// If none of the texts holds an upper-case character, each hit is on a line where
/// one of the texts stands but for the case of ASCII letters.
pub proof fn law_small_letters_match_in_any_case(
    hits: Seq<LineHitView>,
    root: Seq<char>,
    files: Seq<SourceFile>,
    needles: Seq<Seq<char>>,
    i: int,
)
    requires
        lists_only(hits, root, files, needles, ignores_case(needles)),
        !holds_capital(needles),
        0 <= i < hits.len(),
    ensures
        exists|j: int, p: int, k: int|
            0 <= j < files.len() && 0 <= k < needles.len() && (#[trigger] files[j]).text is Some
                && #[trigger] reads_at(encode_utf8(files[j].text->0@), encode_utf8(needles[k]), p)
                && is_hit_at(hits[i], root, files[j], p),
{
    lemma_capital(needles);
    let h = hits[i];
    assert(is_found_in(h, root, files, needles, true));
    let j = choose|j: int|
        0 <= j < files.len() && (#[trigger] files[j]).text is Some && is_found(
            h,
            root,
            files[j].path@,
            files[j].text->0@,
            needles,
            true,
        );
    let bytes = encode_utf8(files[j].text->0@);
    let (p, q) = choose|p: int, q: int| #[trigger]
        one_stands_from_to(needles, true, bytes, (p, q)) && h == match_hit(
            shown_path(root, files[j].path@),
            files[j].text->0@,
            p,
        );
    let k = choose|k: int|
        0 <= k < needles.len() && q == p + encode_utf8(#[trigger] needles[k]).len() && stands_at(
            bytes,
            encode_utf8(needles[k]),
            true,
            p,
        );
    lemma_reads(bytes, encode_utf8(needles[k]), p);
    assert(reads_at(bytes, encode_utf8(needles[k]), p));
    assert(is_hit_at(h, root, files[j], p));
}

/// A text is read at a position if and only if it stands there but for the case of
/// ASCII letters.
pub proof fn lemma_reads(hay: Seq<u8>, text: Seq<u8>, p: int)
    ensures
        reads_at(hay, text, p) <==> stands_at(hay, text, true, p),
{
    if stands_at(hay, text, true, p) {
        assert forall|k: int| 0 <= k < text.len() implies {
            let a = hay[p + k];
            let b = #[trigger] text[k];
            a == b || (65 <= a <= 90 && b == a + 32) || (65 <= b <= 90 && a == b + 32)
        } by {
            assert(same_letter(hay[p + k], text[k]));
        }
    }
    if reads_at(hay, text, p) {
        assert forall|k: int| 0 <= k < text.len() implies same_letter(
            #[trigger] hay[p + k],
            text[k],
        ) by {
            let b = text[k];
        }
    }
}

/// Where the limit was not reached, each line on which one of the texts stands is
/// listed: byte for byte if one of them holds an upper-case character, and but for
/// the case of ASCII letters if none does.
pub proof fn law_every_line_is_listed(
    hits: Seq<LineHitView>,
    root: Seq<char>,
    files: Seq<SourceFile>,
    needles: Seq<Seq<char>>,
    j: int,
    k: int,
    p: int,
)
    requires
        lists_all_in(hits, root, files, needles, ignores_case(needles)),
        0 <= j < files.len(),
        files[j].text is Some,
        0 <= k < needles.len(),
        if holds_capital(needles) {
            occurs_at(encode_utf8(files[j].text->0@), encode_utf8(needles[k]), p)
        } else {
            reads_at(encode_utf8(files[j].text->0@), encode_utf8(needles[k]), p)
        },
        newline_count(encode_utf8(files[j].text->0@).take(p)) < usize::MAX,
    ensures
        exists|i: int|
            0 <= i < hits.len() && (#[trigger] hits[i]).path == shown_path(root, files[j].path@)
                && hits[i].line == newline_count(encode_utf8(files[j].text->0@).take(p)) + 1,
{
    lemma_capital(needles);
    let bytes = encode_utf8(files[j].text->0@);
    lemma_reads(bytes, encode_utf8(needles[k]), p);
    let q = p + encode_utf8(needles[k]).len();
    assert(one_stands_from_to(needles, ignores_case(needles), bytes, (p, q)));
    assert(lists_all(
        hits,
        root,
        files[j].path@,
        files[j].text->0@,
        needles,
        ignores_case(needles),
    ));
    let h = match_hit(shown_path(root, files[j].path@), files[j].text->0@, p);
    assert(is_listed(hits, h));
    let i = choose|i: int|
        0 <= i < hits.len() && (#[trigger] hits[i]).path == h.path && hits[i].line == h.line;
    assert(hits[i].path == h.path);
}

/// Which lines are listed does not depend on the order of the texts, nor on how
/// often one is given.
pub proof fn law_order_of_texts_is_free(
    hits: Seq<LineHitView>,
    root: Seq<char>,
    files: Seq<SourceFile>,
    a: Seq<Seq<char>>,
    b: Seq<Seq<char>>,
)
    requires
        forall|x: Seq<char>| #[trigger] a.contains(x) <==> b.contains(x),
    ensures
        ignores_case(a) == ignores_case(b),
        lists_only(hits, root, files, a, ignores_case(a)) <==> lists_only(
            hits,
            root,
            files,
            b,
            ignores_case(b),
        ),
        lists_all_in(hits, root, files, a, ignores_case(a)) <==> lists_all_in(
            hits,
            root,
            files,
            b,
            ignores_case(b),
        ),
{
    lemma_case_of_members(a, b);
    lemma_case_of_members(b, a);
    lemma_only_members(hits, root, files, a, b, ignores_case(a));
    lemma_only_members(hits, root, files, b, a, ignores_case(a));
    lemma_all_members(hits, root, files, a, b, ignores_case(a));
    lemma_all_members(hits, root, files, b, a, ignores_case(a));
}

proof fn lemma_case_of_members(a: Seq<Seq<char>>, b: Seq<Seq<char>>)
    requires
        forall|x: Seq<char>| #[trigger] a.contains(x) <==> b.contains(x),
    ensures
        ignores_case(a) ==> ignores_case(b),
{
    if ignores_case(a) {
        assert forall|i: int| 0 <= i < b.len() implies !has_upper(#[trigger] b[i]) by {
            assert(b.contains(b[i]));
            assert(a.contains(b[i]));
            assert(!has_upper(a[a.index_of(b[i])]));
        }
    }
}

proof fn lemma_members_stand(
    a: Seq<Seq<char>>,
    b: Seq<Seq<char>>,
    case_insensitive: bool,
    hay: Seq<u8>,
    m: (int, int),
)
    requires
        forall|x: Seq<char>| #[trigger] a.contains(x) <==> b.contains(x),
        one_stands_from_to(a, case_insensitive, hay, m),
    ensures
        one_stands_from_to(b, case_insensitive, hay, m),
{
    let k = choose|k: int|
        0 <= k < a.len() && m.1 == m.0 + encode_utf8(#[trigger] a[k]).len() && stands_at(
            hay,
            encode_utf8(a[k]),
            case_insensitive,
            m.0,
        );
    assert(a.contains(a[k]));
    assert(b.contains(a[k]));
    assert(b[b.index_of(a[k])] == a[k]);
}

proof fn lemma_only_members(
    hits: Seq<LineHitView>,
    root: Seq<char>,
    files: Seq<SourceFile>,
    a: Seq<Seq<char>>,
    b: Seq<Seq<char>>,
    case_insensitive: bool,
)
    requires
        forall|x: Seq<char>| #[trigger] a.contains(x) <==> b.contains(x),
    ensures
        lists_only(hits, root, files, a, case_insensitive) ==> lists_only(
            hits,
            root,
            files,
            b,
            case_insensitive,
        ),
{
    if lists_only(hits, root, files, a, case_insensitive) {
        assert forall|i: int| 0 <= i < hits.len() implies is_found_in(
            #[trigger] hits[i],
            root,
            files,
            b,
            case_insensitive,
        ) by {
            let h = hits[i];
            let j = choose|j: int|
                0 <= j < files.len() && (#[trigger] files[j]).text is Some && is_found(
                    h,
                    root,
                    files[j].path@,
                    files[j].text->0@,
                    a,
                    case_insensitive,
                );
            let bytes = encode_utf8(files[j].text->0@);
            let (p, q) = choose|p: int, q: int| #[trigger]
                one_stands_from_to(a, case_insensitive, bytes, (p, q)) && h == match_hit(
                    shown_path(root, files[j].path@),
                    files[j].text->0@,
                    p,
                );
            lemma_members_stand(a, b, case_insensitive, bytes, (p, q));
            assert(is_found(
                h,
                root,
                files[j].path@,
                files[j].text->0@,
                b,
                case_insensitive,
            ));
        }
    }
}

proof fn lemma_all_members(
    hits: Seq<LineHitView>,
    root: Seq<char>,
    files: Seq<SourceFile>,
    a: Seq<Seq<char>>,
    b: Seq<Seq<char>>,
    case_insensitive: bool,
)
    requires
        forall|x: Seq<char>| #[trigger] a.contains(x) <==> b.contains(x),
    ensures
        lists_all_in(hits, root, files, a, case_insensitive) ==> lists_all_in(
            hits,
            root,
            files,
            b,
            case_insensitive,
        ),
{
    if lists_all_in(hits, root, files, a, case_insensitive) {
        assert forall|j: int| 0 <= j < files.len() && (#[trigger] files[j]).text is Some implies
            lists_all(
            hits,
            root,
            files[j].path@,
            files[j].text->0@,
            b,
            case_insensitive,
        ) by {
            let bytes = encode_utf8(files[j].text->0@);
            assert forall|p: int, q: int| #[trigger]
                one_stands_from_to(b, case_insensitive, bytes, (p, q)) implies is_listed(
                hits,
                match_hit(shown_path(root, files[j].path@), files[j].text->0@, p),
            ) by {
                lemma_members_stand(b, a, case_insensitive, bytes, (p, q));
            }
        }
    }
}

proof fn lemma_matches_append(
    hits: Seq<LineHitView>,
    path: Seq<char>,
    text: Seq<char>,
    starts: Seq<int>,
    limit: int,
)
    ensures
        ({
            let all = with_matches(hits, path, text, starts, limit);
            hits.len() <= all.len() && forall|i: int|
                0 <= i < hits.len() ==> #[trigger] all[i] == hits[i]
        }),
    decreases starts.len(),
{
    if starts.len() > 0 {
        lemma_matches_append(hits, path, text, starts.drop_last(), limit);
    }
}

/// Hits come file by file: what was found in the files before stays in front.
pub proof fn law_multi_hits_come_in_order(
    root: Seq<char>,
    files: Seq<SourceFile>,
    file: SourceFile,
    needles: Seq<Seq<char>>,
    case_insensitive: bool,
    limit: int,
)
    ensures
        ({
            let before = multi_hits(root, files, needles, case_insensitive, limit);
            let all = multi_hits(root, files.push(file), needles, case_insensitive, limit);
            &&& before.len() <= all.len()
            &&& forall|i: int| 0 <= i < before.len() ==> #[trigger] all[i] == before[i]
            &&& file.text is None ==> all == before
        }),
        multi_hits(root, seq![], needles, case_insensitive, limit).len() == 0,
{
    assert(files.push(file).drop_last() =~= files);
    if let Some(text) = file.text {
        lemma_matches_append(
            multi_hits(root, files, needles, case_insensitive, limit),
            shown_path(root, file.path@),
            text@,
            automaton_starts(needles, case_insensitive, encode_utf8(text@)),
            limit,
        );
    }
}

/// Where the texts are too many for one automaton, they are looked for one after the
/// other: the lines with the first one come first, each text is heeded with its case if
/// it holds an upper-case character itself, and there are no more lines than asked for.
pub proof fn law_texts_one_by_one(
    root: Seq<char>,
    files: Seq<SourceFile>,
    needles: Seq<Seq<char>>,
    needle: Seq<char>,
    limit: int,
)
    requires
        0 <= limit,
    ensures
        ({
            let before = one_by_one(root, files, needles, limit);
            let all = one_by_one(root, files, needles.push(needle), limit);
            let own = hits_in_files(root, files, smart(needle));
            &&& before.len() <= limit
            &&& all == if before.len() + own.len() <= limit {
                before + own
            } else {
                before + own.take(limit - before.len())
            }
        }),
        one_by_one(root, files, seq![], limit).len() == 0,
    decreases needles.len(),
{
    assert(needles.push(needle).drop_last() =~= needles);
    if needles.len() > 0 {
        law_texts_one_by_one(root, files, needles.drop_last(), needles.last(), limit);
        assert(needles.drop_last().push(needles.last()) =~= needles);
    }
}

} // verus!
