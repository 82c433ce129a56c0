//! The text form of answers, as segments to be coloured and written out.

use vstd::prelude::*;
use vstd::string::StringExecFns;

use crate::commands::grep::GrepResult;
use crate::hits::GrepHit;
use crate::hits::HitView;
use crate::hits::views;
use crate::pages::Footer;
use crate::pages::footer;
use crate::pages::footer_for;
use crate::text::decimal;
use crate::text::texts;
use crate::text::to_decimal;

verus! {

/// A piece of output.
#[derive(Debug)]
pub enum Segment {
    /// Text as it is.
    Plain(String),
    /// The path of a file.
    Path(String),
    /// The number of a line.
    Line(String),
    /// A line with the ranges in it that matched.
    Matched { text: String, ranges: Vec<(u32, u32)> },
    /// The footer below a page.
    Footer(Footer),
}

/// What a piece of output says.
#[verifier::ext_equal]
pub enum SegmentView {
    Plain(Seq<char>),
    Path(Seq<char>),
    Line(Seq<char>),
    Matched(Seq<char>, Seq<(u32, u32)>),
    Footer(Footer),
}

impl View for Segment {
    type V = SegmentView;

    open spec fn view(&self) -> SegmentView {
        match self {
            Segment::Plain(text) => SegmentView::Plain(text@),
            Segment::Path(text) => SegmentView::Path(text@),
            Segment::Line(text) => SegmentView::Line(text@),
            Segment::Matched { text, ranges } => SegmentView::Matched(text@, ranges@),
            Segment::Footer(footer) => SegmentView::Footer(*footer),
        }
    }
}

/// What each piece of a list says.
pub open spec fn segments(v: Seq<Segment>) -> Seq<SegmentView> {
    v.map_values(|s: Segment| s@)
}

/// The lines around a match.
pub open spec fn context_segments(path: Seq<char>, around: Seq<Seq<char>>) -> Seq<SegmentView>
    decreases around.len(),
{
    if around.len() == 0 {
        seq![]
    } else {
        context_segments(path, around.drop_last()) + seq![
            SegmentView::Path(path),
            SegmentView::Plain("-"@ + around.last() + "\n"@),
        ]
    }
}

/// The line of a match.
pub open spec fn line_segments(hit: HitView) -> Seq<SegmentView> {
    seq![
        SegmentView::Path(hit.path),
        SegmentView::Plain(":"@),
        SegmentView::Line(decimal(hit.line as nat)),
        SegmentView::Plain(": "@),
        SegmentView::Matched(hit.text, hit.ranges),
        SegmentView::Plain("\n"@),
    ]
}

/// A rule behind a match that has context.
pub open spec fn rule_segments(hit: HitView) -> Seq<SegmentView> {
    if hit.before.len() > 0 || hit.after.len() > 0 {
        seq![SegmentView::Plain("--\n"@)]
    } else {
        seq![]
    }
}

/// A hit: the path of a file, or a match with its context.
pub open spec fn hit_segments(hit: HitView) -> Seq<SegmentView> {
    if hit.line == 0 {
        seq![SegmentView::Path(hit.path), SegmentView::Plain("\n"@)]
    } else {
        context_segments(hit.path, hit.before) + line_segments(hit) + context_segments(
            hit.path,
            hit.after,
        ) + rule_segments(hit)
    }
}

/// Hits, one after the other.
pub open spec fn all_hit_segments(hits: Seq<HitView>) -> Seq<SegmentView>
    decreases hits.len(),
{
    if hits.len() == 0 {
        seq![]
    } else {
        all_hit_segments(hits.drop_last()) + hit_segments(hits.last())
    }
}

/// What is shown where nothing was found.
pub open spec fn nothing_found(total: usize) -> Seq<char> {
    "[no matches across "@ + decimal(total as nat) + " files]\n"@
}

/// The answer to a search: its hits and a footer, or that there are none.
pub open spec fn answer_segments(
    hits: Seq<HitView>,
    offset: usize,
    truncated: bool,
    total_matches: usize,
    total_files: usize,
) -> Seq<SegmentView> {
    all_hit_segments(hits) + if hits.len() == 0 {
        seq![SegmentView::Plain(nothing_found(total_files))]
    } else {
        seq![
            SegmentView::Footer(
                footer_for(total_matches, offset, hits.len() as usize, truncated),
            ),
        ]
    }
}

/// Adds a piece.
fn put(out: &mut Vec<Segment>, segment: Segment)
    ensures
        segments(final(out)@) == segments(old(out)@).push(segment@),
{
    out.push(segment);
    assert(segments(out@) =~= segments(old(out)@).push(segment@));
}

/// Adds the lines around a match.
fn put_context(out: &mut Vec<Segment>, path: &str, around: &Vec<String>)
    ensures
        segments(final(out)@) == segments(old(out)@) + context_segments(path@, texts(around@)),
{
    let ghost all = texts(around@);
    let ghost before = segments(out@);
    let mut i: usize = 0;
    assert(all.take(0) =~= seq![]);
    assert(before + context_segments(path@, seq![]) =~= before);
    while i < around.len()
        invariant
            i <= around@.len(),
            all == texts(around@),
            segments(out@) == before + context_segments(path@, all.take(i as int)),
        decreases around@.len() - i,
    {
        let ghost so_far = segments(out@);
        put(out, Segment::Path(path.to_owned()));
        let text = String::from_str("-").concat(around[i].as_str()).concat("\n");
        put(out, Segment::Plain(text));
        assert(all.take(i + 1).drop_last() =~= all.take(i as int));
        assert(all.take(i + 1).last() == around@[i as int]@);
        assert(segments(out@) =~= so_far + seq![
            SegmentView::Path(path@),
            SegmentView::Plain("-"@ + around@[i as int]@ + "\n"@),
        ]);
        assert(segments(out@) =~= before + context_segments(path@, all.take(i + 1)));
        i = i + 1;
    }
    assert(all.take(i as int) =~= all);
}

/// Adds a hit.
fn put_hit(out: &mut Vec<Segment>, hit: &GrepHit)
    ensures
        segments(final(out)@) == segments(old(out)@) + hit_segments(hit@),
{
    let ghost before = segments(out@);
    if hit.line == 0 {
        put(out, Segment::Path(hit.path.clone()));
        put(out, Segment::Plain(String::from_str("\n")));
        assert(segments(out@) =~= before + hit_segments(hit@));
        return;
    }
    put_context(out, hit.path.as_str(), &hit.context_before);
    let ghost first = segments(out@);
    put(out, Segment::Path(hit.path.clone()));
    put(out, Segment::Plain(String::from_str(":")));
    put(out, Segment::Line(to_decimal(hit.line as u64)));
    put(out, Segment::Plain(String::from_str(": ")));
    put(
        out,
        Segment::Matched {
            text: hit.text.clone(),
            ranges: vstd::slice::slice_to_vec(hit.match_ranges.as_slice()),
        },
    );
    put(out, Segment::Plain(String::from_str("\n")));
    assert(segments(out@) =~= first + line_segments(hit@));
    put_context(out, hit.path.as_str(), &hit.context_after);
    let ghost second = segments(out@);
    assert(texts(hit.context_before@).len() == hit.context_before@.len());
    assert(texts(hit.context_after@).len() == hit.context_after@.len());
    if hit.context_before.len() > 0 || hit.context_after.len() > 0 {
        put(out, Segment::Plain(String::from_str("--\n")));
    }
    assert(segments(out@) =~= second + rule_segments(hit@));
    assert(segments(out@) =~= before + hit_segments(hit@));
}

/// What is shown where nothing was found.
pub fn no_matches(total: usize) -> (res: String)
    ensures
        res@ == nothing_found(total),
{
    String::from_str("[no matches across ").concat(to_decimal(total as u64).as_str()).concat(
        " files]\n",
    )
}

/// The text form of the answer to a search.
pub fn render_answer(answer: &GrepResult) -> (res: Vec<Segment>)
    ensures
        segments(res@) == answer_segments(
            views(answer.hits@),
            answer.offset,
            answer.truncated,
            answer.total_matches_at_least,
            answer.total_files_searched,
        ),
{
    let ghost all = views(answer.hits@);
    let mut out: Vec<Segment> = Vec::new();
    let mut i: usize = 0;
    assert(all.take(0) =~= seq![]);
    assert(segments(out@) =~= seq![]);
    while i < answer.hits.len()
        invariant
            i <= answer.hits@.len(),
            all == views(answer.hits@),
            segments(out@) == all_hit_segments(all.take(i as int)),
        decreases answer.hits@.len() - i,
    {
        put_hit(&mut out, &answer.hits[i]);
        assert(all.take(i + 1).drop_last() =~= all.take(i as int));
        assert(all.take(i + 1).last() == answer.hits@[i as int]@);
        i = i + 1;
    }
    assert(all.take(i as int) =~= all);
    let ghost shown = segments(out@);
    if answer.hits.len() == 0 {
        put(&mut out, Segment::Plain(no_matches(answer.total_files_searched)));
    } else {
        put(
            &mut out,
            Segment::Footer(
                footer(
                    answer.total_matches_at_least,
                    answer.offset,
                    answer.hits.len(),
                    answer.truncated,
                ),
            ),
        );
    }
    assert(all.len() == answer.hits@.len());
    assert(segments(out@) =~= answer_segments(
        all,
        answer.offset,
        answer.truncated,
        answer.total_matches_at_least,
        answer.total_files_searched,
    ));
    out
}

/// How a hit is shown: a file alone by its path on a line. Any other hit as its path,
/// its line and its text, with the lines before it above and the lines after it below,
/// and a rule under them if there are any.
pub proof fn law_hits_are_shown(hit: HitView, i: int)
    ensures
        hit.line == 0 ==> hit_segments(hit) == seq![
            SegmentView::Path(hit.path),
            SegmentView::Plain("\n"@),
        ],
        hit.line > 0 ==> {
            let shown = hit_segments(hit);
            let above = 2 * hit.before.len() as int;
            let below = 2 * hit.after.len() as int;
            let behind = above + 6;
            &&& shown.len() == behind + below + (if hit.before.len() > 0 || hit.after.len() > 0 {
                1int
            } else {
                0
            })
            &&& shown[above] == SegmentView::Path(hit.path)
            &&& shown[above + 1] == SegmentView::Plain(":"@)
            &&& shown[above + 2] == SegmentView::Line(decimal(hit.line as nat))
            &&& shown[above + 3] == SegmentView::Plain(": "@)
            &&& shown[above + 4] == SegmentView::Matched(hit.text, hit.ranges)
            &&& shown[above + 5] == SegmentView::Plain("\n"@)
            &&& 0 <= i < hit.before.len() ==> shown[2 * i] == SegmentView::Path(hit.path)
                && shown[2 * i + 1] == SegmentView::Plain("-"@ + hit.before[i] + "\n"@)
            &&& 0 <= i < hit.after.len() ==> shown[behind + 2 * i] == SegmentView::Path(hit.path)
                && shown[behind + 2 * i + 1] == SegmentView::Plain("-"@ + hit.after[i] + "\n"@)
            &&& hit.before.len() > 0 || hit.after.len() > 0 ==> shown.last() == SegmentView::Plain(
                "--\n"@,
            )
        },
{
    lemma_context(hit.path, hit.before, i);
    lemma_context(hit.path, hit.after, i);
    if hit.line > 0 {
        let shown = hit_segments(hit);
        let before = context_segments(hit.path, hit.before);
        let after = context_segments(hit.path, hit.after);
        let own = line_segments(hit);
        let above = 2 * hit.before.len() as int;
        assert(own.len() == 6);
        if 0 <= i < hit.before.len() {
            assert(shown[2 * i] == before[2 * i]);
            assert(shown[2 * i + 1] == before[2 * i + 1]);
        }
        if 0 <= i < hit.after.len() {
            assert(shown[above + 6 + 2 * i] == after[2 * i]);
            assert(shown[above + 6 + 2 * i + 1] == after[2 * i + 1]);
        }
        assert(shown[above] == own[0] && shown[above + 1] == own[1] && shown[above + 2] == own[2]
            && shown[above + 3] == own[3] && shown[above + 4] == own[4] && shown[above + 5]
            == own[5]);
    }
}

proof fn lemma_context(path: Seq<char>, around: Seq<Seq<char>>, i: int)
    ensures
        context_segments(path, around).len() == 2 * around.len(),
        0 <= i < around.len() ==> context_segments(path, around)[2 * i] == SegmentView::Path(path)
            && context_segments(path, around)[2 * i + 1] == SegmentView::Plain(
            "-"@ + around[i] + "\n"@,
        ),
    decreases around.len(),
{
    if around.len() > 0 {
        let front = around.drop_last();
        lemma_context(path, front, i);
        let all = context_segments(path, around);
        let rest = context_segments(path, front);
        let own = seq![
            SegmentView::Path(path),
            SegmentView::Plain("-"@ + around.last() + "\n"@),
        ];
        assert(all == rest + own);
        if 0 <= i < front.len() {
            assert(front[i] == around[i]);
            assert(all[2 * i] == rest[2 * i]);
            assert(all[2 * i + 1] == rest[2 * i + 1]);
        } else if i == front.len() {
            assert(all[2 * i] == own[0]);
            assert(all[2 * i + 1] == own[1]);
        }
    }
}

/// An answer shows its hits one after the other and then how many there are, or that
/// there are none in so many files.
pub proof fn law_answers_are_shown(
    hits: Seq<HitView>,
    hit: HitView,
    offset: usize,
    truncated: bool,
    total_matches: usize,
    total_files: usize,
)
    ensures
        all_hit_segments(seq![]).len() == 0,
        all_hit_segments(hits.push(hit)) == all_hit_segments(hits) + hit_segments(hit),
        hits.len() > 0 ==> answer_segments(hits, offset, truncated, total_matches, total_files)
            == all_hit_segments(hits).push(
            SegmentView::Footer(
                footer_for(total_matches, offset, hits.len() as usize, truncated),
            ),
        ),
        answer_segments(seq![], offset, truncated, total_matches, total_files) == seq![
            SegmentView::Plain(
                "[no matches across "@ + decimal(total_files as nat) + " files]\n"@,
            ),
        ],
{
    assert(hits.push(hit).drop_last() =~= hits);
    let none: Seq<SegmentView> = seq![];
    let told = seq![SegmentView::Plain(nothing_found(total_files))];
    assert(none + told =~= told);
}

} // verus!
