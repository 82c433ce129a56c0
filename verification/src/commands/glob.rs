//! `glob`: list files by a pattern on their paths.

use vstd::prelude::*;
use vstd::string::StringExecFns;

use crate::pages::at_most;
use crate::pages::cutoff;
use crate::pages::first_of;
use crate::pages::footer;
use crate::pages::footer_for;
use crate::pages::law_cutoff_suffices;
use crate::pages::page;
use crate::pages::page_at;
use crate::pages::page_of;
use crate::pages::take_for;
use crate::paths::join;
use crate::paths::joined;
use crate::render::Segment;
use crate::render::SegmentView;
use crate::render::segments;
use crate::text::texts;

verus! {

/// What the `glob` command is asked to do.
#[derive(Debug)]
pub struct Args {
    /// The glob, such as `**/*.rs`.
    pub pattern: String,
    /// How many paths to return.
    pub limit: usize,
    /// How many matches to skip before the page starts.
    pub offset: usize,
}

/// The answer to a `glob`.
#[derive(Debug)]
pub struct GlobResult {
    /// The glob.
    pub pattern: String,
    /// The paths of the page.
    pub matches: Vec<String>,
    /// How many matches stand before the page.
    pub offset: usize,
    /// At least one more match exists beyond the page.
    pub truncated: bool,
    /// How many matches there are up to the end of the page: all of them unless
    /// `truncated`, which makes it a lower bound.
    pub total_matches_at_least: usize,
}

/// The paths as seen from the root.
pub open spec fn from_root(root: Seq<char>, found: Seq<Seq<char>>) -> Seq<Seq<char>> {
    found.map_values(|rel: Seq<char>| joined(root, rel))
}

impl GlobResult {
    /// This is the answer where the scan found `found` below `root`.
    pub open spec fn answers(self, args: Args, root: Seq<char>, found: Seq<Seq<char>>) -> bool {
        let take = cutoff(args.offset, args.limit);
        &&& self.pattern@ == args.pattern@
        &&& texts(self.matches@) == page(
            at_most(from_root(root, found), take as int),
            args.offset as int,
        )
        &&& self.offset == args.offset
        &&& self.truncated == (found.len() > take)
        &&& self.total_matches_at_least == at_most(found, take as int).len()
    }
}

impl Args {
    /// How many matches to scan for: one more than the page reaches to, so that
    /// it shows whether there are more.
    pub fn scan_limit(&self) -> (res: usize)
        ensures
            res == cutoff(cutoff(self.offset, self.limit), 1),
    {
        take_for(take_for(self.offset, self.limit), 1)
    }
}

/// The paths as seen from the root.
fn glob_files(root: &str, found: &Vec<String>) -> (res: Vec<String>)
    ensures
        texts(res@) == from_root(root@, texts(found@)),
{
    let mut res: Vec<String> = Vec::new();
    let mut i: usize = 0;
    while i < found.len()
        invariant
            i <= found@.len(),
            res@.len() == i,
            forall|k: int| 0 <= k < i ==> (#[trigger] res@[k])@ == joined(root@, found@[k]@),
        decreases found@.len() - i,
    {
        res.push(join(root, found[i].as_str()));
        i = i + 1;
    }
    assert(texts(res@) =~= from_root(root@, texts(found@)));
    res
}

/// The answer, where the scan found the paths `found` below `root`: the first
/// `scan_limit` of them.
pub fn run(args: Args, root: &str, found: &Vec<String>) -> (res: GlobResult)
    ensures
        res.answers(args, root@, texts(found@)),
{
    let take = take_for(args.offset, args.limit);
    let truncated = found.len() > take;
    let all = glob_files(root, found);
    let ghost names = texts(all@);
    assert(texts(found@).len() == found@.len());
    assert(names.len() == all@.len());
    let matches = first_of(all, take);
    assert(texts(matches@) =~= at_most(names, take as int));
    let total_matches_at_least = matches.len();
    let ghost kept = texts(matches@);
    assert(kept.len() == matches@.len());
    let shown = page_of(matches, args.offset);
    assert(texts(shown@) =~= page(kept, args.offset as int));
    GlobResult {
        pattern: args.pattern,
        matches: shown,
        offset: args.offset,
        truncated,
        total_matches_at_least,
    }
}

/// A scan that stops one match behind the page gives the same answer as one
/// that comes to the end: what the answer says of more matches is true of all.
pub proof fn law_scan_limit_suffices(
    answer: GlobResult,
    args: Args,
    root: Seq<char>,
    all: Seq<Seq<char>>,
)
    requires
        all.len() <= usize::MAX,
        answer.answers(
            args,
            root,
            at_most(all, cutoff(cutoff(args.offset, args.limit), 1) as int),
        ),
    ensures
        answer.answers(args, root, all),
        answer.truncated <==> all.len() > cutoff(args.offset, args.limit),
        !answer.truncated ==> answer.total_matches_at_least == all.len(),
{
    let take = cutoff(args.offset, args.limit) as int;
    let found = at_most(all, cutoff(cutoff(args.offset, args.limit), 1) as int);
    assert(at_most(from_root(root, found), take) =~= at_most(from_root(root, all), take));
    assert(at_most(found, take) =~= at_most(all, take));
}

/// Paths, one to a line.
pub open spec fn path_lines(paths: Seq<Seq<char>>) -> Seq<SegmentView> {
    paths.map_values(|p: Seq<char>| SegmentView::Plain(p + "\n"@))
}

/// The paths of the answer and a footer; nothing where there are no paths.
pub open spec fn glob_segments(
    matches: Seq<Seq<char>>,
    offset: usize,
    truncated: bool,
    total_matches: usize,
) -> Seq<SegmentView> {
    if matches.len() == 0 {
        seq![]
    } else {
        path_lines(matches).push(
            SegmentView::Footer(
                footer_for(total_matches, offset, matches.len() as usize, truncated),
            ),
        )
    }
}

/// The text form of the answer.
pub fn render(answer: &GlobResult) -> (res: Vec<Segment>)
    ensures
        segments(res@) == glob_segments(
            texts(answer.matches@),
            answer.offset,
            answer.truncated,
            answer.total_matches_at_least,
        ),
{
    let ghost all = path_lines(texts(answer.matches@));
    let mut out: Vec<Segment> = Vec::new();
    let mut i: usize = 0;
    while i < answer.matches.len()
        invariant
            i <= answer.matches@.len(),
            all == path_lines(texts(answer.matches@)),
            out@.len() == i,
            forall|k: int| 0 <= k < i ==> (#[trigger] out@[k])@ == all[k],
        decreases answer.matches@.len() - i,
    {
        let line = answer.matches[i].clone().concat("\n");
        out.push(Segment::Plain(line));
        i = i + 1;
    }
    assert(texts(answer.matches@).len() == answer.matches@.len());
    assert(segments(out@) =~= all);
    if answer.matches.len() > 0 {
        let foot = footer(
            answer.total_matches_at_least,
            answer.offset,
            answer.matches.len(),
            answer.truncated,
        );
        out.push(Segment::Footer(foot));
        assert(segments(out@) =~= all.push(SegmentView::Footer(foot)));
    }
    out
}

/// The paths of an answer are the matches from its offset on, each joined to the root,
/// as many as were asked for. It is cut short if and only if there are more matches
/// than it goes up to.
pub proof fn law_answer_is_a_page_of_paths(
    answer: GlobResult,
    args: Args,
    root: Seq<char>,
    found: Seq<Seq<char>>,
    i: int,
)
    requires
        answer.answers(args, root, found),
        found.len() < usize::MAX,
    ensures
        answer.pattern@ == args.pattern@,
        answer.offset == args.offset,
        texts(answer.matches@) == page_at(
            found.map_values(|rel: Seq<char>| joined(root, rel)),
            args.offset as int,
            args.limit as int,
        ),
        0 <= i < answer.matches@.len() ==> args.offset + i < found.len() && answer.matches@[i]@
            == joined(root, found[args.offset + i]),
        answer.matches@.len() <= args.limit,
        answer.truncated <==> found.len() > args.offset + args.limit,
        !answer.truncated ==> answer.total_matches_at_least == found.len(),
        answer.truncated ==> answer.total_matches_at_least == args.offset + args.limit,
{
    let all = from_root(root, found);
    law_cutoff_suffices(all, args.offset, args.limit);
    let shown = texts(answer.matches@);
    assert(shown.len() == answer.matches@.len());
    if 0 <= i < answer.matches@.len() {
        assert(shown[i] == answer.matches@[i]@);
        assert(shown[i] == all[args.offset + i]);
    }
}

/// What is shown of an answer: each path on a line of its own, in order, and then how
/// many there are; nothing where there are none.
pub proof fn law_paths_are_shown(
    matches: Seq<Seq<char>>,
    offset: usize,
    truncated: bool,
    total: usize,
    i: int,
)
    ensures
        matches.len() == 0 ==> glob_segments(matches, offset, truncated, total).len() == 0,
        matches.len() > 0 ==> {
            let shown = glob_segments(matches, offset, truncated, total);
            &&& shown.len() == matches.len() + 1
            &&& 0 <= i < matches.len() ==> shown[i] == SegmentView::Plain(matches[i] + "\n"@)
            &&& shown.last() == SegmentView::Footer(
                footer_for(total, offset, matches.len() as usize, truncated),
            )
        },
{
}

} // verus!
