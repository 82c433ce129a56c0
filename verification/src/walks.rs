//! What a walk finds in all, whether it comes to the end or not.

use vstd::prelude::*;

use crate::bigram::GrepBigram;
use crate::commands::grep::Args;
use crate::commands::grep::GrepResult;
use crate::commands::grep::WalkedFile;
use crate::commands::grep::file_hits;
use crate::commands::grep::left_out;
use crate::commands::grep::looked_at;
use crate::commands::grep::ranked;
use crate::commands::grep::shows_path;
use crate::commands::grep::walk;
use crate::globs::passes;
use crate::hits::HitView;
use crate::hits::distinct_texts;
use crate::hits::file_hit;
use crate::hits::law_distinct_texts;
use crate::hits::law_sorted_hits;
use crate::hits::sorted_hits;
use crate::matcher::literal_bytes;
use crate::matcher::matches_for;
use crate::pages::at_most;
use crate::prefilter::skipped;
use crate::text::lemma_text_before_irreflexive;
use crate::text::texts;

verus! {

/// The hits of a file that a walk comes to.
pub open spec fn hits_in(
    args: Args,
    root: Seq<char>,
    index: Option<GrepBigram>,
    file: WalkedFile,
) -> Seq<HitView> {
    if !looked_at(args, root, file.path@) {
        seq![]
    } else if index matches Some(i) && skipped(i, literal_bytes(args), file.path@, file.meta) {
        seq![]
    } else {
        match file.content {
            None => seq![],
            Some(content) => if left_out(args, content@) {
                seq![]
            } else if !args.wants_paths() {
                file_hits(args, file.path@, content@)
            } else if shows_path(args, matches_for(args, content@).len() > 0) {
                seq![file_hit(file.path@)]
            } else {
                seq![]
            },
        }
    }
}

/// The hits of all files, one file after the other.
pub open spec fn all_hits(
    args: Args,
    root: Seq<char>,
    index: Option<GrepBigram>,
    files: Seq<WalkedFile>,
) -> Seq<HitView>
    decreases files.len(),
{
    if files.len() == 0 {
        seq![]
    } else {
        all_hits(args, root, index, files.drop_last()) + hits_in(args, root, index, files.last())
    }
}

/// A walk notes all hits until there are too many, and keeps the first ones.
proof fn lemma_walk(
    args: Args,
    root: Seq<char>,
    index: Option<GrepBigram>,
    files: Seq<WalkedFile>,
)
    requires
        all_hits(args, root, index, files).len() <= usize::MAX,
    ensures
        ({
            let (c, n) = walk(args, root, index, files);
            let all = all_hits(args, root, index, files);
            &&& c.take == args.spec_take()
            &&& c.hits == at_most(all, c.take as int)
            &&& c.stop <==> all.len() > c.take
            &&& !c.stop ==> c.found == all.len() && n == files.len()
        }),
    decreases files.len(),
{
    if files.len() > 0 {
        let front = files.drop_last();
        let file = files.last();
        let before = all_hits(args, root, index, front);
        let local = hits_in(args, root, index, file);
        let all = before + local;
        lemma_walk(args, root, index, front);
        let (c, n) = walk(args, root, index, front);
        let d = walk(args, root, index, files).0;
        if c.stop {
            assert(at_most(all, c.take as int) =~= at_most(before, c.take as int));
        } else if local.len() == 0 {
            assert(all =~= before);
            assert(d == c);
        } else if args.wants_paths() {
            assert(d == c.with_path(file.path@));
            assert(d.hits =~= at_most(all, c.take as int));
        } else {
            assert(d == c.with_lines(local));
            assert(d.hits =~= at_most(all, c.take as int));
        }
    }
}

/// The files have different paths.
pub open spec fn different_paths(files: Seq<WalkedFile>) -> bool {
    forall|i: int, j: int|
        0 <= i < j < files.len() ==> (#[trigger] files[i]).path@ != (#[trigger] files[j]).path@
}

/// Where paths are asked for, each hit is that of a file, and none comes twice.
proof fn lemma_path_hits(
    args: Args,
    root: Seq<char>,
    index: Option<GrepBigram>,
    files: Seq<WalkedFile>,
)
    requires
        args.wants_paths(),
        different_paths(files),
    ensures
        all_hits(args, root, index, files).no_duplicates(),
        forall|k: int|
            0 <= k < all_hits(args, root, index, files).len() ==> exists|i: int|
                0 <= i < files.len() && #[trigger] all_hits(args, root, index, files)[k]
                    == file_hit((#[trigger] files[i]).path@),
    decreases files.len(),
{
    if files.len() > 0 {
        let front = files.drop_last();
        let before = all_hits(args, root, index, front);
        let local = hits_in(args, root, index, files.last());
        let all = before + local;
        assert(all_hits(args, root, index, files) == all);
        assert forall|i: int, j: int| 0 <= i < j < front.len() implies (#[trigger] front[i]).path@
            != (#[trigger] front[j]).path@ by {
            assert(files[i].path@ != files[j].path@);
        }
        lemma_path_hits(args, root, index, front);
        assert forall|k: int| 0 <= k < all.len() implies exists|i: int|
            0 <= i < files.len() && #[trigger] all[k] == file_hit((#[trigger] files[i]).path@) by {
            if k < before.len() {
                let i = choose|i: int|
                    0 <= i < front.len() && before[k] == file_hit((#[trigger] front[i]).path@);
                assert(all[k] == file_hit(files[i].path@));
            } else {
                assert(all[k] == file_hit(files[files.len() - 1].path@));
            }
        }
        assert forall|k: int, m: int| 0 <= k < before.len() && 0 <= m < local.len() implies before[k]
            != local[m] by {
            let i = choose|i: int|
                0 <= i < front.len() && before[k] == file_hit((#[trigger] front[i]).path@);
            assert(front[i].path@ == files[i].path@);
            assert(files[i].path@ != files[files.len() - 1].path@);
            assert(file_hit(files[i].path@).path == files[i].path@);
        }
    }
}

/// Where no text comes twice, taking each once leaves as many.
proof fn lemma_distinct_len(s: Seq<Seq<char>>)
    requires
        s.no_duplicates(),
    ensures
        distinct_texts(s).len() == s.len(),
{
    let d = distinct_texts(s);
    law_distinct_texts(s);
    assert forall|i: int, j: int| 0 <= i < d.len() && 0 <= j < d.len() && i != j implies d[i]
        != d[j] by {
        lemma_text_before_irreflexive(d[i]);
    }
    d.unique_seq_to_set();
    s.unique_seq_to_set();
    assert(d.to_set() =~= s.to_set());
}

/// Each file that is searched is listed either as one with a match or as one
/// without, and an inverted search lists the others.
pub proof fn law_files_are_with_or_without_match(with: Args, without: Args, matched: bool)
    requires
        with.files_with_matches,
        !with.files_without_match,
        without.files_without_match,
    ensures
        with.invert_match == without.invert_match ==> shows_path(with, matched) != shows_path(
            without,
            matched,
        ),
        with.invert_match != without.invert_match ==> shows_path(with, matched) == shows_path(
            without,
            matched,
        ),
        shows_path(with, matched) == (matched != with.invert_match),
{
}

/// An answer shows what there is: a walk keeps the first hits, as many as the
/// page needs; the answer is truncated if and only if there are more; and where
/// it is not, the walk has come to every file, and the total is that of all hits
/// in all files.
pub proof fn law_untruncated_answer_is_whole(
    answer: GrepResult,
    args: Args,
    root: Seq<char>,
    index: Option<GrepBigram>,
    files: Seq<WalkedFile>,
    total: usize,
)
    requires
        all_hits(args, root, index, files).len() <= usize::MAX,
        args.files_with_matches ==> different_paths(files),
        answer.answers(args, walk(args, root, index, files).0, total),
    ensures
        ({
            let (c, n) = walk(args, root, index, files);
            let all = all_hits(args, root, index, files);
            &&& c.hits == at_most(all, args.spec_take() as int)
            &&& answer.truncated <==> all.len() > args.spec_take()
            &&& answer.total_matches_at_least == c.hits.len()
            &&& !answer.truncated ==> {
                &&& c.hits == all
                &&& n == files.len()
                &&& answer.total_matches_at_least == all.len()
            }
        }),
{
    let c = walk(args, root, index, files).0;
    let all = all_hits(args, root, index, files);
    let take = args.spec_take() as int;
    lemma_walk(args, root, index, files);
    let sorted = sorted_hits(c.hits);
    law_sorted_hits(c.hits);
    assert(at_most(sorted, take) =~= sorted);
    if args.files_with_matches {
        lemma_path_hits(args, root, index, files);
        assert(c.hits.no_duplicates());
        c.hits.lemma_multiset_has_no_duplicates();
        sorted.lemma_multiset_has_no_duplicates_conv();
        let paths = sorted.map_values(|h: HitView| h.path);
        assert(paths.no_duplicates()) by {
            broadcast use vstd::seq_lib::group_to_multiset_ensures;

            assert forall|i: int| 0 <= i < sorted.len() implies #[trigger] sorted[i] == file_hit(
                sorted[i].path,
            ) by {
                assert(sorted.contains(sorted[i]));
                assert(sorted.to_multiset().contains(sorted[i]));
                assert(c.hits.to_multiset().contains(sorted[i]));
                let k = c.hits.index_of(sorted[i]);
                assert(c.hits[k] == all[k]);
            }
            assert forall|i: int, j: int|
                0 <= i < paths.len() && 0 <= j < paths.len() && i != j implies paths[i]
                != paths[j] by {
                assert(sorted[i] != sorted[j]);
            }
        }
        lemma_distinct_len(paths);
    }
}

/// What a file gives: nothing if no glob lets it through, if it cannot be read, or
/// if there is a zero among its first 8192 bytes and binary files are not asked for.
/// With files asked for, it gives itself if and only if it has a match, or has none,
/// as was asked. Else it gives its rows.
pub proof fn law_what_a_file_gives(args: Args, root: Seq<char>, file: WalkedFile)
    ensures
        file.content is None ==> hits_in(args, root, None, file).len() == 0,
        file.content matches Some(content) ==> {
            let given = hits_in(args, root, None, file);
            let binary = exists|i: int|
                0 <= i < 8192 && i < content@.len() && #[trigger] content@[i] == 0;
            let matched = matches_for(args, content@).len() > 0;
            if args.globs@.len() > 0 && !passes(texts(args.globs@), root, file.path@) {
                given.len() == 0
            } else if binary && !args.text {
                given.len() == 0
            } else if args.files_with_matches && !args.files_without_match {
                if matched != args.invert_match {
                    given.len() == 1 && given[0].path == file.path@ && given[0].line == 0
                } else {
                    given.len() == 0
                }
            } else if args.files_without_match {
                if matched == args.invert_match {
                    given.len() == 1 && given[0].path == file.path@ && given[0].line == 0
                } else {
                    given.len() == 0
                }
            } else {
                given == file_hits(args, file.path@, content@)
            }
        },
{
}

/// The hits of several files are those of each file, one file after the other.
pub proof fn law_hits_come_file_by_file(
    args: Args,
    root: Seq<char>,
    index: Option<GrepBigram>,
    files: Seq<WalkedFile>,
    file: WalkedFile,
)
    ensures
        all_hits(args, root, index, seq![]).len() == 0,
        all_hits(args, root, index, files.push(file)) == all_hits(args, root, index, files)
            + hits_in(args, root, index, file),
{
    assert(files.push(file).drop_last() =~= files);
}

} // verus!
