//! `grep`: search file contents.

use vstd::prelude::*;
use vstd::utf8::decode_utf8;
use vstd::utf8::encode_utf8;
use vstd::utf8::valid_utf8;

use crate::bigram::FileMeta;
use crate::bigram::GrepBigram;
use crate::bigram::ScannedFile;
use crate::bigram::fingerprint_of;
use crate::bigram::is_binary;
use crate::bigram::looks_binary;
use crate::globs::GlobFilter;
use crate::globs::build_glob_filter;
use crate::globs::first_refused;
use crate::globs::glob_part;
use crate::globs::glob_refusal;
use crate::globs::glob_set_refusal;
use crate::globs::globs_of;
use crate::globs::law_first_bad_glob_is_refused;
use crate::globs::passes;
use crate::hits::Collected;
use crate::hits::Finding;
use crate::hits::GrepHit;
use crate::hits::HitCollector;
use crate::hits::HitView;
use crate::hits::WalkStep;
use crate::hits::distinct_paths;
use crate::hits::file_hit;
use crate::hits::law_distinct_texts;
use crate::hits::law_sorted_hits;
use crate::hits::path_hit;
use crate::hits::paths_of;
use crate::hits::sort_hits;
use crate::hits::sorted_hits;
use crate::hits::views;
use crate::matcher::Matcher;
use crate::matcher::case_matters;
use crate::matcher::holds_metacharacter;
use crate::matcher::lemma_exact_matches;
use crate::matcher::literal_bytes;
use crate::matcher::matches_for;
use crate::matcher::mode_for;
use crate::matcher::regex_pattern;
use crate::matcher::regex_refusal;
use crate::matcher::serves;
use crate::matcher::uppercase;
use crate::matcher::wants_regex;
use crate::pages::at_most;
use crate::pages::cutoff;
use crate::pages::first_of;
use crate::pages::law_cutoff_suffices;
use crate::pages::page;
use crate::pages::page_at;
use crate::pages::page_of;
use crate::pages::take_for;
use crate::prefilter::Prefilter;
use crate::prefilter::law_skipped_files_hold_no_match;
use crate::prefilter::skipped;
use crate::rows::file_rows;
use crate::rows::has_row;
use crate::rows::law_inverted_rows_show_their_lines;
use crate::rows::law_parts_are_the_matches;
use crate::rows::law_rows_are_matched_lines;
use crate::rows::line_of;
use crate::rows::matched_lines;
use crate::rows::matching_rows;
use crate::rows::merged_rows;
use crate::rows::rows_of_file;
use crate::rows::utf8_lossy;
use crate::search::hits_of_rows;
use crate::search::law_rows_become_hits;
use crate::search::row_hits;
use crate::text::lines;
use crate::text::occurs_at;
use crate::text::text_before;
use crate::text::texts;

verus! {

/// What the `grep` command is asked to do.
#[derive(Debug)]
pub struct Args {
    /// The pattern. Taken as a regular expression when it holds a
    /// metacharacter of one (`.`, `*`, `+`, `?`, `^`, `$`, `[`, `(`, `|`,
    /// `\`), unless `fixed_strings` or `regex` says otherwise.
    pub needle: String,
    /// How many lines to return in all.
    pub limit: usize,
    /// How many matches to skip before the page starts.
    pub offset: usize,
    /// Match with regard to case.
    pub case_sensitive: bool,
    /// Match without regard to case, whatever the pattern looks like.
    pub ignore_case: bool,
    /// Take the pattern as a regular expression.
    pub regex: bool,
    /// Take the pattern literally.
    pub fixed_strings: bool,
    /// Match whole words only.
    pub word_regexp: bool,
    /// Select the lines that do not match.
    pub invert_match: bool,
    /// Stop after this many matches in a file; zero means no limit.
    pub max_count: usize,
    /// The short form of `max_count`.
    pub max_count_per_file: Option<usize>,
    /// Return the paths of files with a match.
    pub files_with_matches: bool,
    /// Return the paths of files without a match.
    pub files_without_match: bool,
    /// Search hidden files too.
    pub hidden: bool,
    /// Search ignored files too.
    pub no_ignore: bool,
    /// Search binary files as if they were text.
    pub text: bool,
    /// Globs that a file has to match, or with a leading `!` must not.
    pub globs: Vec<String>,
    /// Return the matched part of each line only.
    pub only_matching: bool,
    /// Group the matches by file and enclosing symbol.
    pub group: bool,
    /// Lines of context after each match.
    pub after_context: usize,
    /// Lines of context before each match.
    pub before_context: usize,
    /// Lines of context on both sides, where the above say zero.
    pub context: usize,
}

/// Why a search cannot start.
#[derive(Debug)]
pub enum GrepError {
    /// The pattern is empty.
    EmptyNeedle,
    /// The pattern is no regular expression.
    InvalidRegex { needle: String, detail: String },
    /// A file pattern is no glob.
    InvalidGlob { pattern: String, detail: String },
    /// The file patterns cannot be used together.
    GlobSet { detail: String },
}

impl Args {
    /// The lines of context to return before and after a match.
    pub open spec fn spec_context_lines(self) -> (usize, usize) {
        (
            if self.before_context > 0 {
                self.before_context
            } else {
                self.context
            },
            if self.after_context > 0 {
                self.after_context
            } else {
                self.context
            },
        )
    }

    /// The lines of context before and after each match: the side's own count
    /// where it is given, else the one for both sides.
    pub fn context_lines(&self) -> (res: (usize, usize))
        ensures
            res == self.spec_context_lines(),
    {
        let before = if self.before_context > 0 {
            self.before_context
        } else {
            self.context
        };
        let after = if self.after_context > 0 {
            self.after_context
        } else {
            self.context
        };
        (before, after)
    }

    /// How many matches of a file count.
    pub open spec fn spec_matches_per_file(self) -> usize {
        if self.max_count > 0 {
            self.max_count
        } else {
            match self.max_count_per_file {
                Some(m) => m,
                None => usize::MAX,
            }
        }
    }

    /// How many matches of a file count: `max_count` where it is not zero, else
    /// what its short form says, else all.
    pub fn matches_per_file(&self) -> (res: usize)
        ensures
            res == self.spec_matches_per_file(),
    {
        if self.max_count > 0 {
            self.max_count
        } else {
            match self.max_count_per_file {
                Some(m) => m,
                None => usize::MAX,
            }
        }
    }

    /// Whether the path of a file is shown, which has a match or has none.
    pub fn shows(&self, matched: bool) -> (res: bool)
        ensures
            res == shows_path(*self, matched),
    {
        let emit = if self.files_without_match {
            !matched
        } else {
            matched
        };
        emit != self.invert_match
    }

    /// How many hits a walk looks for.
    pub open spec fn spec_take(self) -> usize {
        cutoff(self.offset, self.limit)
    }

    /// Paths are asked for, not lines.
    pub open spec fn wants_paths(self) -> bool {
        self.files_with_matches || self.files_without_match
    }
}

/// The search can start.
pub open spec fn acceptable(args: Args) -> bool {
    &&& args.needle@.len() > 0
    &&& wants_regex(args) ==> regex_refusal(regex_pattern(args), !case_matters(args)) is None
    &&& args.globs@.len() > 0 ==> {
        &&& first_refused(texts(args.globs@)) is None
        &&& glob_set_refusal(globs_of(texts(args.globs@), false)) is None
        &&& glob_set_refusal(globs_of(texts(args.globs@), true)) is None
    }
}

/// Why the search cannot start: the pattern is empty, or else it is no regular
/// expression, or else a file pattern is no glob, or else the file patterns
/// that include or those that exclude cannot be used together.
pub open spec fn is_reason(e: GrepError, args: Args) -> bool {
    let expression_fails = wants_regex(args) && regex_refusal(
        regex_pattern(args),
        !case_matters(args),
    ) is Some;
    match e {
        GrepError::EmptyNeedle => args.needle@.len() == 0,
        GrepError::InvalidRegex { needle, detail } => {
            &&& args.needle@.len() > 0
            &&& expression_fails
            &&& needle@ == args.needle@
            &&& regex_refusal(regex_pattern(args), !case_matters(args)) == Some(detail@)
        },
        GrepError::InvalidGlob { pattern, detail } => {
            &&& args.needle@.len() > 0
            &&& !expression_fails
            &&& first_refused(texts(args.globs@)) == Some(pattern@)
            &&& glob_refusal(glob_part(pattern@)) == Some(detail@)
        },
        GrepError::GlobSet { detail } => {
            &&& args.needle@.len() > 0
            &&& !expression_fails
            &&& args.globs@.len() > 0
            &&& first_refused(texts(args.globs@)) is None
            &&& match glob_set_refusal(globs_of(texts(args.globs@), false)) {
                Some(why) => detail@ == why,
                None => glob_set_refusal(globs_of(texts(args.globs@), true)) == Some(detail@),
            }
        },
    }
}

/// A file without a match gives no hits.
pub open spec fn needs_match(args: Args) -> bool {
    if args.wants_paths() {
        !shows_path(args, false)
    } else {
        !args.invert_match
    }
}

/// An index is asked for: the pattern is a literal of two bytes or more.
pub open spec fn asks_for_index(args: Args) -> bool {
    !wants_regex(args) && literal_bytes(args).len() >= 2
}

/// The index is of use: it is asked for, files without a match give no hits, and
/// neither do binary ones, whose pairs it does not know.
pub open spec fn uses_index(args: Args) -> bool {
    asks_for_index(args) && needs_match(args) && !args.text
}

/// The file is one that the file patterns let through.
pub open spec fn looked_at(args: Args, root: Seq<char>, path: Seq<char>) -> bool {
    args.globs@.len() == 0 || passes(texts(args.globs@), root, path)
}

/// The path of a file is shown: the file has a match, or has none where that
/// is asked for, the other way round in an inverted search.
pub open spec fn shows_path(args: Args, matched: bool) -> bool {
    (if args.files_without_match {
        !matched
    } else {
        matched
    }) != args.invert_match
}

/// The hits of a file.
pub open spec fn file_hits(args: Args, path: Seq<char>, content: Seq<u8>) -> Seq<HitView> {
    row_hits(
        path,
        content,
        file_rows(
            content,
            matches_for(args, content),
            args.invert_match,
            args.only_matching,
            args.spec_matches_per_file(),
        ),
        args.spec_context_lines().0 as int,
        args.spec_context_lines().1 as int,
    )
}

/// The file is left out as binary.
pub open spec fn left_out(args: Args, content: Seq<u8>) -> bool {
    !args.text && looks_binary(content)
}

/// This is what the search finds in a file.
pub open spec fn is_finding(
    finding: Finding,
    args: Args,
    path: Seq<char>,
    content: Seq<u8>,
) -> bool {
    match finding {
        Finding::Nothing => {
            ||| left_out(args, content)
            ||| args.wants_paths() && !shows_path(args, matches_for(args, content).len() > 0)
            ||| !args.wants_paths() && file_hits(args, path, content).len() == 0
        },
        Finding::File => {
            &&& !left_out(args, content)
            &&& args.wants_paths()
            &&& shows_path(args, matches_for(args, content).len() > 0)
        },
        Finding::Lines(hits) => {
            &&& !left_out(args, content)
            &&& !args.wants_paths()
            &&& hits@.len() > 0
            &&& views(hits@) == file_hits(args, path, content)
        },
    }
}

/// What is collected once a file has been searched.
pub open spec fn searched(args: Args, path: Seq<char>, content: Seq<u8>, c: Collected) -> Collected {
    if left_out(args, content) {
        c
    } else if args.wants_paths() {
        if shows_path(args, matches_for(args, content).len() > 0) {
            c.with_path(path)
        } else {
            c
        }
    } else if file_hits(args, path, content).len() == 0 {
        c
    } else {
        c.with_lines(file_hits(args, path, content))
    }
}

/// The walk ends with this file, since its lines do not all fit.
pub open spec fn ends_walk(args: Args, path: Seq<char>, content: Seq<u8>, c: Collected) -> bool {
    &&& !left_out(args, content)
    &&& !args.wants_paths()
    &&& file_hits(args, path, content).len() > 0
    &&& c.overflows(file_hits(args, path, content))
}

/// The hits in the order in which pages show them: sorted, cut off where the
/// page ends, and as paths where those are asked for.
pub open spec fn ranked(args: Args, found: Seq<HitView>) -> Seq<HitView> {
    let kept = at_most(sorted_hits(found), args.spec_take() as int);
    if args.files_with_matches {
        distinct_paths(kept).map_values(|p: Seq<char>| file_hit(p))
    } else {
        kept
    }
}

/// The answer to a search.
#[derive(Debug)]
pub struct GrepResult {
    /// The pattern.
    pub needle: String,
    /// The hits of the page.
    pub hits: Vec<GrepHit>,
    /// How many files there are.
    pub total_files_searched: usize,
    /// What ran: `literal` or `regex`.
    pub mode: &'static str,
    /// How many hits stand before the page.
    pub offset: usize,
    /// At least one more hit exists beyond the page.
    pub truncated: bool,
    /// How many hits there are up to the end of the page: all of them unless
    /// `truncated`, which makes it a lower bound.
    pub total_matches_at_least: usize,
    /// The version of this form.
    pub schema: &'static str,
}

impl GrepResult {
    /// This is the answer where `c` was collected in `total` files. A walk stops
    /// when it finds more than it keeps, so that it knows of more.
    pub open spec fn answers(self, args: Args, c: Collected, total: usize) -> bool {
        let all = ranked(args, c.hits);
        &&& self.needle@ == args.needle@
        &&& views(self.hits@) == page(all, args.offset as int)
        &&& self.total_files_searched == total
        &&& self.mode@ == mode_for(args)
        &&& self.offset == args.offset
        &&& self.truncated == c.stop
        &&& self.total_matches_at_least == all.len()
        &&& self.schema@ == "v1"@
    }
}

/// A search that can start.
pub struct GrepPlan {
    args: Args,
    matcher: Matcher,
    mode: &'static str,
    globs: Option<GlobFilter>,
}

/// Makes a search ready.
pub fn prepare(args: Args) -> (res: Result<GrepPlan, GrepError>)
    ensures
        match res {
            Ok(plan) => acceptable(args) && plan.spec_args() == args,
            Err(e) => !acceptable(args) && is_reason(e, args),
        },
{
    if args.needle.as_str().is_empty() {
        return Err(GrepError::EmptyNeedle);
    }
    match Matcher::build(&args) {
        Err(e) => Err(e),
        Ok((matcher, mode)) => match build_glob_filter(&args.globs) {
            Err(e) => Err(e),
            Ok(globs) => Ok(GrepPlan { args, matcher, mode, globs }),
        },
    }
}

impl GrepPlan {
    /// What the search was asked to do.
    pub closed spec fn spec_args(self) -> Args {
        self.args
    }

    /// The parts are those that the arguments ask for.
    #[verifier::type_invariant]
    spec fn consistent(self) -> bool {
        &&& serves(self.matcher, self.args)
        &&& self.mode@ == mode_for(self.args)
        &&& match self.globs {
            None => self.args.globs@.len() == 0,
            Some(filter) => {
                &&& self.args.globs@.len() > 0
                &&& filter.spec_patterns() == texts(self.args.globs@)
            },
        }
    }

    /// What the search was asked to do.
    pub fn args(&self) -> (res: &Args)
        ensures
            *res == self.spec_args(),
    {
        &self.args
    }

    /// A collector for the hits of the walk.
    pub fn collector(&self) -> (res: HitCollector)
        ensures
            res.wf(),
            res@ == Collected::nothing(self.spec_args().spec_take()),
    {
        HitCollector::new(take_for(self.args.offset, self.args.limit))
    }

    /// Whether an index is asked for.
    pub fn wants_index(&self) -> (res: bool)
        ensures
            res == asks_for_index(self.spec_args()),
    {
        proof {
            use_type_invariant(self);
        }
        match &self.matcher {
            Matcher::Literal { needle, .. } => needle.len() >= 2,
            Matcher::Regex(_) => false,
        }
    }

    /// How many files there are, as far as the index says.
    pub fn counted(&self, index: &Option<GrepBigram>) -> (res: Option<usize>)
        ensures
            match res {
                Some(n) => {
                    &&& asks_for_index(self.spec_args())
                    &&& index matches Some(i)
                    &&& n == i.paths@.len()
                },
                None => !asks_for_index(self.spec_args()) || index is None,
            },
    {
        match index {
            Some(i) => if self.wants_index() {
                Some(i.file_count())
            } else {
                None
            },
            None => None,
        }
    }

    /// Whether an index can leave out files.
    fn uses_index(&self) -> (res: bool)
        ensures
            res == uses_index(self.spec_args()),
    {
        let inverted = if self.args.files_with_matches || self.args.files_without_match {
            self.args.shows(false)
        } else {
            self.args.invert_match
        };
        self.wants_index() && !inverted && !self.args.text
    }

    /// Asks an index about the pattern, if that is of use.
    pub fn prefilter(&self, index: Option<GrepBigram>) -> (res: Option<Prefilter>)
        ensures
            match res {
                Some(filter) => {
                    &&& uses_index(self.spec_args())
                    &&& index == Some(filter.spec_index())
                    &&& filter.spec_pattern() == literal_bytes(self.spec_args())
                },
                None => !uses_index(self.spec_args()) || index is None,
            },
    {
        proof {
            use_type_invariant(self);
        }
        let wanted = self.uses_index();
        match (index, &self.matcher) {
            (Some(index), Matcher::Literal { needle, .. }) => {
                if wanted {
                    Some(Prefilter::new(index, needle.as_slice()))
                } else {
                    None
                }
            },
            _ => None,
        }
    }

    /// Whether the file patterns let a file through.
    pub fn looks_at(&self, root: &str, path: &str) -> (res: bool)
        ensures
            res == looked_at(self.spec_args(), root@, path@),
    {
        proof {
            use_type_invariant(self);
        }
        match &self.globs {
            None => true,
            Some(filter) => filter.matches(root, path),
        }
    }

    /// Searches a file.
    pub fn find_in_file(&self, path: &str, content: &[u8]) -> (res: Finding)
        ensures
            is_finding(res, self.spec_args(), path@, content@),
    {
        proof {
            use_type_invariant(self);
        }
        assert(self.matcher.matches(content@) == matches_for(self.args, content@));
        if !self.args.text && is_binary(content) {
            return Finding::Nothing;
        }
        if self.args.files_with_matches || self.args.files_without_match {
            let matched = self.matcher.is_match(content);
            return if self.args.shows(matched) {
                Finding::File
            } else {
                Finding::Nothing
            };
        }
        let rows = rows_of_file(
            content,
            &self.matcher,
            self.args.invert_match,
            self.args.only_matching,
            self.args.matches_per_file(),
        );
        let (before, after) = self.args.context_lines();
        let hits = hits_of_rows(path, content, rows, before, after);
        assert(views(hits@) == file_hits(self.args, path@, content@));
        assert(views(hits@).len() == hits@.len());
        if hits.len() == 0 {
            Finding::Nothing
        } else {
            Finding::Lines(hits)
        }
    }

    /// Searches a file and notes what it finds. Says whether the walk goes on.
    pub fn search_file(&self, path: &str, content: &[u8], collector: &mut HitCollector) -> (res:
        WalkStep)
        requires
            old(collector).wf(),
        ensures
            final(collector).wf(),
            final(collector)@ == searched(self.spec_args(), path@, content@, old(collector)@),
            res == WalkStep::Quit <==> ends_walk(
                self.spec_args(),
                path@,
                content@,
                old(collector)@,
            ),
    {
        let finding = self.find_in_file(path, content);
        collector.note(path, finding)
    }

    /// The answer, where `collector` collected its hits in `total` files.
    pub fn finish(&self, collector: HitCollector, total: usize) -> (res: GrepResult)
        ensures
            res.answers(self.spec_args(), collector@, total),
    {
        proof {
            use_type_invariant(self);
        }
        let truncated = collector.stop;
        let found = collector.hits;
        let take = take_for(self.args.offset, self.args.limit);
        let ghost all = ranked(self.args, views(found@));
        let sorted = sort_hits(found);
        let ghost in_order = views(sorted@);
        let kept = first_of(sorted, take);
        assert(views(kept@) =~= at_most(in_order, take as int));
        let hits = if self.args.files_with_matches {
            file_hits_of(&kept)
        } else {
            kept
        };
        assert(views(hits@) == all);
        let total_matches_at_least = hits.len();
        assert(hits@.len() == all.len());
        let shown = page_of(hits, self.args.offset);
        assert(views(shown@) =~= page(all, self.args.offset as int));
        GrepResult {
            needle: self.args.needle.clone(),
            hits: shown,
            total_files_searched: total,
            mode: self.mode,
            offset: self.args.offset,
            truncated,
            total_matches_at_least,
            schema: "v1",
        }
    }
}

/// A file that a walk comes to.
#[derive(Debug)]
pub struct WalkedFile {
    /// Its path.
    pub path: String,
    /// What the file system says of it, if it says anything.
    pub meta: Option<FileMeta>,
    /// Its content, if it could be read.
    pub content: Option<Vec<u8>>,
}

/// What is collected once the walk has come to a file.
pub open spec fn visited(
    args: Args,
    root: Seq<char>,
    index: Option<GrepBigram>,
    file: WalkedFile,
    c: Collected,
) -> Collected {
    if !looked_at(args, root, file.path@) {
        c
    } else if index matches Some(i) && skipped(i, literal_bytes(args), file.path@, file.meta) {
        c
    } else {
        match file.content {
            None => c,
            Some(content) => searched(args, file.path@, content@, c),
        }
    }
}

/// What a walk over files collects, and how many files it comes to before it
/// stops.
pub open spec fn walk(
    args: Args,
    root: Seq<char>,
    index: Option<GrepBigram>,
    files: Seq<WalkedFile>,
) -> (Collected, int)
    decreases files.len(),
{
    if files.len() == 0 {
        (Collected::nothing(args.spec_take()), 0)
    } else {
        let (c, n) = walk(args, root, index, files.drop_last());
        if c.stop {
            (c, n)
        } else {
            (visited(args, root, index, files.last(), c), n + 1)
        }
    }
}

/// The index that a search uses, if there is one and it is of use.
pub open spec fn index_used(args: Args, index: Option<GrepBigram>) -> Option<GrepBigram> {
    if uses_index(args) {
        index
    } else {
        None
    }
}

/// How many files there are: as an index that is asked for has it, whether it
/// is of use or not, or as the walk came to.
pub open spec fn total_files(args: Args, index: Option<GrepBigram>, came_to: int) -> int {
    match index {
        Some(i) if asks_for_index(args) => i.paths@.len() as int,
        _ => came_to,
    }
}

/// Searches the files at hand, in the order in which they are given.
pub fn run(
    args: Args,
    root: &str,
    files: &Vec<WalkedFile>,
    index: Option<GrepBigram>,
) -> (res: Result<GrepResult, GrepError>)
    ensures
        match res {
            Ok(answer) => {
                let used = index_used(args, index);
                let (c, n) = walk(args, root@, used, files@);
                &&& acceptable(args)
                &&& answer.answers(args, c, total_files(args, index, n) as usize)
            },
            Err(e) => !acceptable(args) && is_reason(e, args),
        },
{
    let plan = match prepare(args) {
        Ok(plan) => plan,
        Err(e) => {
            return Err(e);
        },
    };
    let ghost used = index_used(args, index);
    let counted = plan.counted(&index);
    let filter = plan.prefilter(index);
    assert(match filter {
        Some(f) => used == Some(f.spec_index()) && f.spec_pattern() == literal_bytes(args),
        None => used is None,
    });
    let mut collector = plan.collector();
    let mut came_to: usize = 0;
    let mut i: usize = 0;
    assert(files@.take(0) =~= seq![]);
    while i < files.len()
        invariant
            i <= files@.len(),
            came_to <= i,
            collector.wf(),
            plan.spec_args() == args,
            match filter {
                Some(f) => used == Some(f.spec_index()) && f.spec_pattern() == literal_bytes(args),
                None => used is None,
            },
            (collector@, came_to as int) == walk(args, root@, used, files@.take(i as int)),
        decreases files@.len() - i,
    {
        let file = &files[i];
        assert(files@.take(i + 1).drop_last() =~= files@.take(i as int));
        if !collector.stop {
            came_to = came_to + 1;
            let skips = match &filter {
                Some(f) => f.skips(file.path.as_str(), &file.meta),
                None => false,
            };
            if plan.looks_at(root, file.path.as_str()) && !skips {
                match &file.content {
                    Some(content) => {
                        plan.search_file(file.path.as_str(), content.as_slice(), &mut collector);
                    },
                    None => {},
                }
            }
        }
        i = i + 1;
    }
    assert(files@.take(i as int) =~= files@);
    let total = match counted {
        Some(n) => n,
        None => came_to,
    };
    Ok(plan.finish(collector, total))
}

/// A hit for each file among the hits.
fn file_hits_of(hits: &Vec<GrepHit>) -> (res: Vec<GrepHit>)
    ensures
        views(res@) == distinct_paths(views(hits@)).map_values(|p: Seq<char>| file_hit(p)),
{
    let paths = paths_of(hits);
    let ghost wanted = distinct_paths(views(hits@)).map_values(|p: Seq<char>| file_hit(p));
    let mut res: Vec<GrepHit> = Vec::new();
    let mut i: usize = 0;
    while i < paths.len()
        invariant
            i <= paths@.len(),
            texts(paths@) == distinct_paths(views(hits@)),
            wanted == distinct_paths(views(hits@)).map_values(|p: Seq<char>| file_hit(p)),
            res@.len() == i,
            forall|k: int| 0 <= k < i ==> (#[trigger] res@[k])@ == wanted[k],
        decreases paths@.len() - i,
    {
        let hit = path_hit(paths[i].as_str());
        assert(texts(paths@)[i as int] == paths@[i as int]@);
        res.push(hit);
        i = i + 1;
    }
    assert(texts(paths@).len() == paths@.len());
    assert(views(res@) =~= wanted);
    res
}

/// A search that needs a match finds nothing in a file that has none.
proof fn lemma_no_match_no_hits(args: Args, path: Seq<char>, content: Seq<u8>, c: Collected)
    requires
        needs_match(args),
        matches_for(args, content).len() == 0,
    ensures
        searched(args, path, content, c) == c,
{
    if !args.wants_paths() {
        let matches = matches_for(args, content);
        assert(at_most(matches, args.spec_matches_per_file() as int) =~= seq![]);
        assert(matching_rows(content, matches, args.spec_matches_per_file()) =~= seq![]);
        assert(merged_rows(content, seq![]) =~= seq![]);
        assert(file_hits(args, path, content) =~= seq![]);
    }
}

/// What was found of a file when it was indexed still tells of the file `now`,
/// if its fingerprint is the recorded one.
pub open spec fn recorded(scanned: Seq<ScannedFile>, now: WalkedFile) -> bool {
    now.meta matches Some(meta) && now.content matches Some(content) ==> forall|i: int|
        0 <= i < scanned.len() && (#[trigger] scanned[i]).path@ == now.path@
            && scanned[i].fingerprint() == fingerprint_of(meta) ==> scanned[i].tells_of(content@)
}

/// A search finds the same with the index as without it, however old the index
/// is: a file that the index leaves out has no match.
pub proof fn law_index_changes_nothing(
    args: Args,
    root: Seq<char>,
    index: GrepBigram,
    scanned: Seq<ScannedFile>,
    files: Seq<WalkedFile>,
)
    requires
        uses_index(args),
        index.indexes(scanned),
        forall|i: int| 0 <= i < files.len() ==> recorded(scanned, #[trigger] files[i]),
    ensures
        walk(args, root, Some(index), files) == walk(args, root, None, files),
    decreases files.len(),
{
    if files.len() > 0 {
        let front = files.drop_last();
        let file = files.last();
        assert forall|i: int| 0 <= i < front.len() implies recorded(scanned, #[trigger] front[i]) by {
            assert(front[i] == files[i]);
        }
        law_index_changes_nothing(args, root, index, scanned, front);
        let c = walk(args, root, None, front).0;
        assert(files[files.len() - 1] == file);
        let pattern = literal_bytes(args);
        if skipped(index, pattern, file.path@, file.meta) && file.content is Some {
            let content = file.content->0@;
            law_skipped_files_hold_no_match(
                index,
                scanned,
                pattern,
                file.path@,
                file.meta->0,
                content,
            );
            if !left_out(args, content) {
                lemma_no_match_no_hits(args, file.path@, content, c);
            }
        }
    }
}

/// How many lines of context a hit has: as many as `before_context` and
/// `after_context` say, and where one of them is zero, as many as `context` says. A
/// hit has fewer only where the file begins or ends.
pub proof fn law_hits_have_their_context(args: Args, path: Seq<char>, content: Seq<u8>, i: int)
    requires
        0 <= i < file_hits(args, path, content).len(),
        valid_utf8(content),
        1 <= file_hits(args, path, content)[i].line <= lines(decode_utf8(content)).len(),
    ensures
        ({
            let hit = file_hits(args, path, content)[i];
            let text = lines(decode_utf8(content));
            let before = if args.before_context > 0 {
                args.before_context
            } else {
                args.context
            };
            let after = if args.after_context > 0 {
                args.after_context
            } else {
                args.context
            };
            &&& hit.path == path
            &&& hit.before.len() == if hit.line - 1 <= before {
                hit.line - 1
            } else {
                before as int
            }
            &&& hit.after.len() == if text.len() - hit.line <= after {
                text.len() - hit.line
            } else {
                after as int
            }
            &&& before > 0 || after > 0 ==> hit.before + seq![text[hit.line - 1]] + hit.after
                == text.subrange(
                hit.line - 1 - hit.before.len(),
                hit.line + hit.after.len(),
            )
        }),
{
    let (before, after) = args.spec_context_lines();
    let rows = file_rows(
        content,
        matches_for(args, content),
        args.invert_match,
        args.only_matching,
        args.spec_matches_per_file(),
    );
    law_rows_become_hits(path, content, rows, before as int, after as int, i);
}

/// No more matches of a file count than `max_count` says or, where that is zero,
/// than `max_count_per_file` says. Where neither says anything, all do.
pub proof fn law_matches_per_file(args: Args, path: Seq<char>, content: Seq<u8>)
    requires
        args.only_matching,
        !args.invert_match,
        matches_for(args, content).len() <= usize::MAX,
    ensures
        ({
            let found = matches_for(args, content).len();
            let hits = file_hits(args, path, content).len();
            &&& args.max_count > 0 ==> hits == if found <= args.max_count {
                found as int
            } else {
                args.max_count as int
            }
            &&& args.max_count == 0 && args.max_count_per_file is Some ==> hits == if found
                <= args.max_count_per_file->0 {
                found as int
            } else {
                args.max_count_per_file->0 as int
            }
            &&& args.max_count == 0 && args.max_count_per_file is None ==> hits == found
        }),
{
}

/// The hits of a file are its rows: with the other lines asked for, those on which
/// no match starts, and else those with a match.
pub proof fn law_hits_are_rows(args: Args, path: Seq<char>, content: Seq<u8>, i: int)
    requires
        0 <= i < file_hits(args, path, content).len(),
    ensures
        ({
            let hit = file_hits(args, path, content)[i];
            let starts = matched_lines(content, matches_for(args, content));
            &&& hit.path == path
            &&& !args.invert_match ==> starts.contains(hit.line)
            &&& args.invert_match && lines(utf8_lossy(content)).len() <= u32::MAX
                ==> !starts.contains(hit.line)
        }),
{
    let found = matches_for(args, content);
    let max = args.spec_matches_per_file();
    let rows = file_rows(content, found, args.invert_match, args.only_matching, max);
    let hit = file_hits(args, path, content)[i];
    assert(hit.line == rows[i].line);
    let numbers = found.map_values(|m: (int, int)| line_of(content, m.0));
    if args.invert_match {
        if lines(utf8_lossy(content)).len() <= u32::MAX {
            law_inverted_rows_show_their_lines(content, found, args.only_matching, max, i);
            if numbers.contains(hit.line) {
                let k = numbers.index_of(hit.line);
                assert(line_of(content, found[k].0) == hit.line);
            }
        }
    } else if args.only_matching {
        law_parts_are_the_matches(content, found, max, i);
        assert(numbers[i] == hit.line);
        assert(numbers.contains(hit.line));
    } else {
        let part = at_most(found, max as int);
        law_rows_are_matched_lines(content, part, hit.line);
        assert(has_row(rows, hit.line));
        let some = part.map_values(|m: (int, int)| line_of(content, m.0));
        let k = some.index_of(hit.line);
        assert(numbers[k] == hit.line);
        assert(numbers.contains(hit.line));
    }
}

/// What a request is refused for: an empty pattern before anything else, then an
/// expression that cannot be compiled, and then a glob that is none.
pub proof fn law_reasons_for_refusal(e: GrepError, args: Args)
    requires
        is_reason(e, args),
    ensures
        !acceptable(args),
        args.needle@.len() == 0 <==> e is EmptyNeedle,
        args.needle@.len() > 0 && wants_regex(args) && regex_refusal(
            regex_pattern(args),
            !case_matters(args),
        ) is Some <==> e is InvalidRegex,
        e is InvalidGlob || e is GlobSet ==> args.globs@.len() > 0,
        e is InvalidGlob ==> exists|i: int|
            0 <= i < args.globs@.len() && (#[trigger] args.globs@[i])@ == e->pattern@,
{
    if e is InvalidGlob {
        let patterns = texts(args.globs@);
        law_first_bad_glob_is_refused(patterns);
        let i = choose|i: int| 0 <= i < patterns.len() && #[trigger] patterns[i] == e->pattern@;
        assert(args.globs@[i]@ == e->pattern@);
    }
}

/// An answer is a page of what was kept: sorted, the first ones up to the end of the
/// page, and without those before its offset. With only files asked for, each file
/// is named once, with line zero.
pub proof fn law_answer_is_a_page(answer: GrepResult, args: Args, c: Collected, total: usize)
    requires
        answer.answers(args, c, total),
        c.hits.len() <= usize::MAX,
    ensures
        answer.needle@ == args.needle@,
        answer.offset == args.offset,
        answer.truncated == c.stop,
        answer.total_files_searched == total,
        !args.files_with_matches ==> views(answer.hits@) == page_at(
            sorted_hits(c.hits),
            args.offset as int,
            args.limit as int,
        ),
        args.files_with_matches ==> forall|i: int|
            0 <= i < views(answer.hits@).len() ==> (#[trigger] views(answer.hits@)[i]).line == 0
                && views(answer.hits@)[i].text.len() == 0 && exists|k: int|
                0 <= k < c.hits.len() && (#[trigger] c.hits[k]).path == views(
                    answer.hits@,
                )[i].path,
        args.files_with_matches ==> forall|i: int, j: int|
            0 <= i < j < views(answer.hits@).len() ==> text_before(
                (#[trigger] views(answer.hits@)[i]).path,
                (#[trigger] views(answer.hits@)[j]).path,
            ),
{
    law_sorted_hits(c.hits);
    let sorted = sorted_hits(c.hits);
    law_cutoff_suffices(sorted, args.offset, args.limit);
    if args.files_with_matches {
        let kept = at_most(sorted, args.spec_take() as int);
        let names = kept.map_values(|h: HitView| h.path);
        let paths = distinct_paths(kept);
        law_distinct_texts(names);
        let all = ranked(args, c.hits);
        let shown = views(answer.hits@);
        assert forall|i: int| 0 <= i < shown.len() implies (#[trigger] shown[i]).line == 0
            && shown[i].text.len() == 0 && exists|k: int|
            0 <= k < c.hits.len() && (#[trigger] c.hits[k]).path == shown[i].path by {
            let at = args.offset + i;
            assert(shown[i] == all[at]);
            assert(paths.contains(paths[at]));
            let j = names.index_of(paths[at]);
            assert(kept[j].path == paths[at]);
            assert(sorted[j] == kept[j]);
            broadcast use vstd::seq_lib::group_to_multiset_ensures;

            assert(sorted.contains(sorted[j]));
            assert(sorted.to_multiset().count(sorted[j]) > 0);
            assert(c.hits.to_multiset().count(sorted[j]) > 0);
            assert(c.hits.contains(sorted[j]));
            let k = c.hits.index_of(sorted[j]);
            assert(c.hits[k].path == shown[i].path);
        }
        assert forall|i: int, j: int| 0 <= i < j < shown.len() implies text_before(
            (#[trigger] shown[i]).path,
            (#[trigger] shown[j]).path,
        ) by {
            assert(shown[i] == all[args.offset + i] && shown[j] == all[args.offset + j]);
            assert(text_before(paths[args.offset + i], paths[args.offset + j]));
        }
    }
}

/// How many files an answer speaks of: those that the walk came to, or those of the
/// index where there is one and the pattern is a literal of two bytes or more.
pub proof fn law_files_counted(args: Args, index: Option<GrepBigram>, came_to: int)
    ensures
        index is None ==> total_files(args, index, came_to) == came_to,
        args.regex || args.word_regexp ==> total_files(args, index, came_to) == came_to,
        index is Some && !args.regex && !args.word_regexp && args.fixed_strings && literal_bytes(
            args,
        ).len() >= 2 ==> total_files(args, index, came_to) == index->0.paths@.len(),
        literal_bytes(args).len() < 2 ==> total_files(args, index, came_to) == came_to,
{
}

/// The index is left aside for a search that it cannot help with: one that shows
/// what does not match, one that looks into binary files too, and one that is not
/// for a literal of two bytes or more.
pub proof fn law_index_is_left_aside(args: Args, index: Option<GrepBigram>)
    ensures
        args.text ==> index_used(args, index) is None,
        args.regex || args.word_regexp ==> index_used(args, index) is None,
        literal_bytes(args).len() < 2 ==> index_used(args, index) is None,
        args.invert_match && !args.files_without_match ==> index_used(args, index) is None,
        args.files_without_match && !args.invert_match ==> index_used(args, index) is None,
        !args.text && !args.regex && !args.word_regexp && args.fixed_strings && literal_bytes(
            args,
        ).len() >= 2 && !args.invert_match && !args.files_without_match ==> index_used(args, index)
            == index,
{
}

/// What a search accepts: a pattern that is not empty, that can be compiled where it
/// is run as an expression, and globs that can be compiled, one by one and together.
pub proof fn law_what_is_accepted(args: Args)
    ensures
        acceptable(args) ==> args.needle@.len() > 0,
        acceptable(args) && (args.regex || args.word_regexp) ==> regex_refusal(
            regex_pattern(args),
            !case_matters(args),
        ) is None,
        acceptable(args) ==> forall|i: int|
            0 <= i < args.globs@.len() ==> glob_refusal(
                if (#[trigger] args.globs@[i])@.len() > 0 && args.globs@[i]@[0] == '!' {
                    args.globs@[i]@.skip(1)
                } else {
                    args.globs@[i]@
                },
            ) is None,
        args.needle@.len() > 0 && args.fixed_strings && !args.regex && !args.word_regexp
            && args.globs@.len() == 0 ==> acceptable(args),
{
    let patterns = texts(args.globs@);
    law_first_bad_glob_is_refused(patterns);
    if acceptable(args) {
        assert forall|i: int| 0 <= i < args.globs@.len() implies glob_refusal(
            if (#[trigger] args.globs@[i])@.len() > 0 && args.globs@[i]@[0] == '!' {
                args.globs@[i]@.skip(1)
            } else {
                args.globs@[i]@
            },
        ) is None by {
            assert(patterns[i] == args.globs@[i]@);
        }
    }
}

/// Each hit of a search with regard to case for a plain text is on a line on which
/// the text starts, byte for byte; and each line on which it starts outside of another
/// match has a hit, unless only so many matches were asked for.
pub proof fn law_hits_hold_the_text(args: Args, path: Seq<char>, content: Seq<u8>, i: int)
    requires
        !args.ignore_case,
        args.case_sensitive || exists|k: int|
            0 <= k < args.needle@.len() && uppercase(#[trigger] args.needle@[k]),
        !args.regex,
        !args.word_regexp,
        args.fixed_strings || !holds_metacharacter(args.needle@),
        !args.invert_match,
        0 <= i < file_hits(args, path, content).len(),
    ensures
        exists|p: int|
            #[trigger] occurs_at(content, encode_utf8(args.needle@), p) && line_of(content, p)
                == file_hits(args, path, content)[i].line,
{
    law_hits_are_rows(args, path, content, i);
    lemma_exact_matches(args, content);
    let found = matches_for(args, content);
    let numbers = found.map_values(|m: (int, int)| line_of(content, m.0));
    let line = file_hits(args, path, content)[i].line;
    let k = numbers.index_of(line);
    assert(numbers[k] == line);
    let (p, q) = found[k];
    assert(content.subrange(p, q) == encode_utf8(args.needle@));
    assert(q == p + encode_utf8(args.needle@).len());
    assert(occurs_at(content, encode_utf8(args.needle@), p));
}

/// A walk comes to one file after the other until it may stop, and counts those that
/// it came to.
pub proof fn law_walk_comes_to(
    args: Args,
    root: Seq<char>,
    index: Option<GrepBigram>,
    files: Seq<WalkedFile>,
    file: WalkedFile,
)
    ensures
        walk(args, root, index, seq![]).1 == 0,
        walk(args, root, index, files).0.stop ==> walk(args, root, index, files.push(file)) == walk(
            args,
            root,
            index,
            files,
        ),
        !walk(args, root, index, files).0.stop ==> walk(args, root, index, files.push(file)).1
            == walk(args, root, index, files).1 + 1,
        0 <= walk(args, root, index, files).1 <= files.len(),
    decreases files.len(),
{
    assert(files.push(file).drop_last() =~= files);
    if files.len() > 0 {
        law_walk_comes_to(args, root, index, files.drop_last(), files.last());
        assert(files.drop_last().push(files.last()) =~= files);
    }
}

} // verus!
