//! What a search returns of one file: rows of line number, text and matches.

use std::collections::HashSet;

use vstd::prelude::*;
use vstd::utf8::decode_utf8;
use vstd::utf8::encode_utf8;
use vstd::utf8::valid_utf8;

use crate::matcher::Matcher;
use crate::matcher::spans;
use crate::newlines::NewlineIndex;
use crate::newlines::law_line_of_a_byte;
use crate::newlines::line_bytes;
use crate::newlines::line_number;
use crate::newlines::line_start;
use crate::newlines::newline_count;
use crate::pages::at_most;
use crate::text::chars_of;
use crate::text::lines;
use crate::text::split_lines;
use crate::text::texts;

verus! {

broadcast use vstd::std_specs::hash::group_hash_axioms;

/// The text of bytes, with what is not UTF-8 replaced.
pub uninterp spec fn utf8_lossy(bytes: Seq<u8>) -> Seq<char>;

/// `String::from_utf8_lossy`: the text that the bytes encode, with U+FFFD in
/// place of what is not UTF-8. Valid UTF-8 comes out as the text that it is.
#[verifier::external_body]
pub(crate) fn text_lossy(bytes: &[u8]) -> (res: String)
    ensures
        res@ == utf8_lossy(bytes@),
        valid_utf8(bytes@) ==> res@ == decode_utf8(bytes@),
{
    String::from_utf8_lossy(bytes).into_owned()
}

/// `std::str::from_utf8`: the text that the bytes encode, if they are UTF-8.
#[verifier::external_body]
pub(crate) fn text_strict(bytes: &[u8]) -> (res: Option<String>)
    ensures
        match res {
            Some(s) => valid_utf8(bytes@) && s@ == decode_utf8(bytes@),
            None => !valid_utf8(bytes@),
        },
{
    std::str::from_utf8(bytes).ok().map(|s| s.to_owned())
}

/// How many bytes a text takes.
pub open spec fn text_bytes(s: Seq<char>) -> usize {
    encode_utf8(s).len() as usize
}

/// A text with each newline written as a backslash and an `n`.
pub open spec fn escaped(s: Seq<char>) -> Seq<char>
    decreases s.len(),
{
    if s.len() == 0 {
        seq![]
    } else if s.last() == '\n' {
        escaped(s.drop_last()).push('\\').push('n')
    } else {
        escaped(s.drop_last()).push(s.last())
    }
}

/// Writes each newline as a backslash and an `n`.
fn escape_newlines(s: &str) -> (res: String)
    ensures
        res@ == escaped(s@),
{
    let chars = chars_of(s);
    let mut res = String::new();
    let mut i: usize = 0;
    assert(chars@.take(0) =~= seq![]);
    assert(res@ =~= seq![]);
    while i < chars.len()
        invariant
            i <= chars@.len(),
            chars@ == s@,
            res@ == escaped(chars@.take(i as int)),
        decreases chars@.len() - i,
    {
        assert(chars@.take(i + 1).drop_last() =~= chars@.take(i as int));
        if chars[i] == '\n' {
            res.push('\\');
            res.push('n');
        } else {
            res.push(chars[i]);
        }
        i = i + 1;
    }
    assert(chars@.take(i as int) =~= s@);
    res
}

/// One row of the answer.
#[derive(Debug)]
pub struct Row {
    /// The number of the line.
    pub line: u32,
    /// What to show of it.
    pub text: String,
    /// The start and end of each match within `text`.
    pub ranges: Vec<(u32, u32)>,
}

/// What a row says.
#[verifier::ext_equal]
pub struct RowView {
    pub line: u32,
    pub text: Seq<char>,
    pub ranges: Seq<(u32, u32)>,
}

impl View for Row {
    type V = RowView;

    open spec fn view(&self) -> RowView {
        RowView { line: self.line, text: self.text@, ranges: self.ranges@ }
    }
}

/// What each row of a list says.
pub open spec fn row_views(rows: Seq<Row>) -> Seq<RowView> {
    rows.map_values(|r: Row| r@)
}

/// The number of the line that a match starts on.
pub open spec fn line_of(h: Seq<u8>, off: int) -> u32 {
    line_number(h, off) as u32
}

/// The numbers of the lines that matches start on.
pub open spec fn matched_lines(h: Seq<u8>, matches: Seq<(int, int)>) -> Set<u32> {
    matches.map_values(|m: (int, int)| line_of(h, m.0)).to_set()
}

/// The lines whose numbers are not in `matched`, in order.
pub open spec fn unmatched_rows(text: Seq<Seq<char>>, matched: Set<u32>) -> Seq<RowView>
    decreases text.len(),
{
    if text.len() == 0 {
        seq![]
    } else {
        let rest = unmatched_rows(text.drop_last(), matched);
        let line = text.len() as u32;
        if matched.contains(line) {
            rest
        } else {
            rest.push(RowView { line, text: text.last(), ranges: seq![] })
        }
    }
}

/// The rows of a search for lines without a match: at most `max_count`, but
/// one where there is one.
pub open spec fn inverted_rows(h: Seq<u8>, matches: Seq<(int, int)>, max_count: usize) -> Seq<
    RowView,
> {
    at_most(
        unmatched_rows(lines(utf8_lossy(h)), matched_lines(h, matches)),
        if max_count == 0 {
            1
        } else {
            max_count as int
        },
    )
}

/// The range of a whole text, unless it is empty.
pub open spec fn whole(text: Seq<char>) -> Option<(u32, u32)> {
    if text.len() == 0 {
        None
    } else {
        Some((0, text_bytes(text) as u32))
    }
}

/// A range as a list of none or one.
pub open spec fn listed(range: Option<(u32, u32)>) -> Seq<(u32, u32)> {
    match range {
        Some(r) => seq![r],
        None => seq![],
    }
}

/// The row of the matched part alone.
pub open spec fn matched_row(h: Seq<u8>, m: (int, int)) -> RowView {
    let text = escaped(utf8_lossy(h.subrange(m.0, m.1)));
    RowView { line: line_of(h, m.0), text, ranges: listed(whole(text)) }
}

/// The rows of a search for the matched parts: one for each match.
pub open spec fn matching_rows(h: Seq<u8>, matches: Seq<(int, int)>, max_count: usize) -> Seq<
    RowView,
> {
    at_most(matches, max_count as int).map_values(|m: (int, int)| matched_row(h, m))
}

/// The smaller of a position and a length.
pub open spec fn capped(p: int, len: u32) -> u32 {
    if p <= len {
        p as u32
    } else {
        len
    }
}

/// A match spans more than one line.
pub open spec fn spans_lines(h: Seq<u8>, m: (int, int)) -> bool {
    m.1 > m.0 && h.subrange(m.0, m.1).contains(10u8)
}

/// What a match shows of its line: the line, or of a match over several lines
/// all of it.
pub open spec fn shown_text(h: Seq<u8>, m: (int, int)) -> Seq<char> {
    if spans_lines(h, m) {
        escaped(utf8_lossy(h.subrange(m.0, m.1)))
    } else {
        utf8_lossy(line_bytes(h, m.0))
    }
}

/// How far behind the start of its line a position lies; none behind it is
/// zero.
pub open spec fn column(h: Seq<u8>, off: int, p: int) -> int {
    if p >= line_start(h, off) {
        p - line_start(h, off)
    } else {
        0
    }
}

/// The columns of the line where a match starts and ends.
pub open spec fn columns(h: Seq<u8>, m: (int, int)) -> (int, int) {
    (column(h, m.0, m.0), column(h, m.0, m.1))
}

/// The part of a text between two columns, as far as the text goes.
pub open spec fn range_within(text: Seq<char>, c: (int, int)) -> Option<(u32, u32)> {
    let len = text_bytes(text) as u32;
    if c.1 > c.0 {
        Some((capped(c.0, len), capped(c.1, len)))
    } else {
        None
    }
}

/// Where in the text that it shows a match stands.
pub open spec fn shown_range(h: Seq<u8>, m: (int, int)) -> Option<(u32, u32)> {
    let text = shown_text(h, m);
    if spans_lines(h, m) {
        whole(text)
    } else {
        range_within(text, columns(h, m))
    }
}

/// Adds a match to rows that are ordered by line: to the row of its line, as the
/// part of the row's text between the columns `c`, or as a new row with a text
/// and a range of its own.
pub open spec fn add_match(
    rows: Seq<RowView>,
    line: u32,
    text: Seq<char>,
    range: Option<(u32, u32)>,
    c: (int, int),
) -> Seq<RowView>
    decreases rows.len(),
{
    if rows.len() == 0 || rows.last().line < line {
        rows.push(RowView { line, text, ranges: listed(range) })
    } else if rows.last().line == line {
        rows.drop_last().push(
            RowView {
                ranges: rows.last().ranges + listed(range_within(rows.last().text, c)),
                ..rows.last()
            },
        )
    } else {
        add_match(rows.drop_last(), line, text, range, c).push(rows.last())
    }
}

/// The rows of matches, one for each line.
pub open spec fn merged_rows(h: Seq<u8>, matches: Seq<(int, int)>) -> Seq<RowView>
    decreases matches.len(),
{
    if matches.len() == 0 {
        seq![]
    } else {
        let m = matches.last();
        add_match(
            merged_rows(h, matches.drop_last()),
            line_of(h, m.0),
            shown_text(h, m),
            shown_range(h, m),
            columns(h, m),
        )
    }
}

/// The rows of a file.
pub open spec fn file_rows(
    h: Seq<u8>,
    matches: Seq<(int, int)>,
    invert_match: bool,
    only_matching: bool,
    max_count: usize,
) -> Seq<RowView> {
    if invert_match {
        inverted_rows(h, matches, max_count)
    } else if only_matching {
        matching_rows(h, matches, max_count)
    } else {
        merged_rows(h, at_most(matches, max_count as int))
    }
}

/// One of the rows is that of the line.
pub open spec fn has_row(rows: Seq<RowView>, line: u32) -> bool {
    exists|i: int| 0 <= i < rows.len() && (#[trigger] rows[i]).line == line
}

/// The rows come in the order of their lines, one to a line.
pub open spec fn rows_ascend(rows: Seq<RowView>) -> bool {
    forall|i: int, j: int|
        0 <= i < j < rows.len() ==> (#[trigger] rows[i]).line < (#[trigger] rows[j]).line
}

/// A row that is pushed is there, as are the others.
proof fn lemma_push_row(rows: Seq<RowView>, r: RowView, line: u32)
    ensures
        has_row(rows.push(r), line) <==> has_row(rows, line) || r.line == line,
{
    let all = rows.push(r);
    if has_row(rows, line) {
        let i = choose|i: int| 0 <= i < rows.len() && (#[trigger] rows[i]).line == line;
        assert(all[i].line == line);
    }
    if has_row(all, line) {
        let i = choose|i: int| 0 <= i < all.len() && (#[trigger] all[i]).line == line;
        if i < rows.len() {
            assert(rows[i].line == line);
        }
    }
    assert(all[rows.len() as int] == r);
}

/// A match joins ascending rows in its place.
proof fn lemma_add_match(
    rows: Seq<RowView>,
    line: u32,
    text: Seq<char>,
    range: Option<(u32, u32)>,
    c: (int, int),
    n: u32,
)
    requires
        rows_ascend(rows),
    ensures
        rows_ascend(add_match(rows, line, text, range, c)),
        has_row(add_match(rows, line, text, range, c), n) <==> has_row(rows, n) || n == line,
        forall|i: int|
            0 <= i < add_match(rows, line, text, range, c).len() ==> (#[trigger] add_match(
                rows,
                line,
                text,
                range,
                c,
            )[i]).line == line || has_row(rows, add_match(rows, line, text, range, c)[i].line),
    decreases rows.len(),
{
    let res = add_match(rows, line, text, range, c);
    if rows.len() == 0 || rows.last().line < line {
        lemma_push_row(rows, res.last(), n);
        assert forall|i: int| 0 <= i < res.len() implies (#[trigger] res[i]).line == line
            || has_row(rows, res[i].line) by {
            if i < rows.len() {
                assert(rows[i] == res[i]);
            }
        }
    } else {
        let front = rows.drop_last();
        assert(rows =~= front.push(rows.last()));
        lemma_push_row(front, rows.last(), n);
        if rows.last().line == line {
            lemma_push_row(front, res.last(), n);
            assert forall|i: int| 0 <= i < res.len() implies (#[trigger] res[i]).line == line
                || has_row(rows, res[i].line) by {
                if i < front.len() {
                    assert(rows[i] == res[i]);
                }
            }
        } else {
            let part = add_match(front, line, text, range, c);
            lemma_add_match(front, line, text, range, c, n);
            lemma_push_row(part, rows.last(), n);
            assert forall|i: int| 0 <= i < part.len() implies (#[trigger] part[i]).line
                < rows.last().line && (part[i].line == line || has_row(rows, part[i].line)) by {
                if part[i].line != line {
                    let m = part[i].line;
                    let k = choose|k: int| 0 <= k < front.len() && (#[trigger] front[k]).line == m;
                    assert(rows[k].line == m);
                }
            }
            assert(rows[rows.len() - 1] == res.last());
        }
    }
}

/// The rows of matches are those of the lines that matches start on, in order
/// and each once.
pub proof fn law_rows_are_matched_lines(h: Seq<u8>, matches: Seq<(int, int)>, line: u32)
    ensures
        rows_ascend(merged_rows(h, matches)),
        has_row(merged_rows(h, matches), line) <==> matched_lines(h, matches).contains(line),
    decreases matches.len(),
{
    let numbers = matches.map_values(|m: (int, int)| line_of(h, m.0));
    if matches.len() > 0 {
        let (front, m) = (matches.drop_last(), matches.last());
        law_rows_are_matched_lines(h, front, line);
        lemma_add_match(
            merged_rows(h, front),
            line_of(h, m.0),
            shown_text(h, m),
            shown_range(h, m),
            columns(h, m),
            line,
        );
        let fewer = front.map_values(|m: (int, int)| line_of(h, m.0));
        assert(numbers =~= fewer.push(line_of(h, m.0)));
        assert(numbers.contains(line) <==> fewer.contains(line) || line == line_of(h, m.0)) by {
            if fewer.contains(line) {
                assert(numbers[fewer.index_of(line)] == line);
            }
            if numbers.contains(line) && numbers.index_of(line) < fewer.len() {
                assert(fewer[numbers.index_of(line)] == line);
            }
            assert(numbers[fewer.len() as int] == line_of(h, m.0));
        }
    } else {
        assert(numbers =~= seq![]);
    }
}

/// Each range of a row lies within its text.
pub open spec fn ranges_fit(row: RowView) -> bool {
    forall|k: int|
        0 <= k < row.ranges.len() ==> (#[trigger] row.ranges[k]).0 <= row.ranges[k].1
            <= text_bytes(row.text)
}

proof fn lemma_length_fits(n: usize)
    ensures
        n as u32 <= n,
{
    assert(n as u32 <= n) by (bit_vector);
}

proof fn lemma_add_match_fits(
    rows: Seq<RowView>,
    line: u32,
    text: Seq<char>,
    range: Option<(u32, u32)>,
    c: (int, int),
)
    requires
        forall|i: int| 0 <= i < rows.len() ==> ranges_fit(#[trigger] rows[i]),
        range matches Some(r) ==> r.0 <= r.1 <= text_bytes(text),
        0 <= c.0,
    ensures
        forall|i: int|
            0 <= i < add_match(rows, line, text, range, c).len() ==> ranges_fit(
                #[trigger] add_match(rows, line, text, range, c)[i],
            ),
    decreases rows.len(),
{
    let res = add_match(rows, line, text, range, c);
    if rows.len() > 0 {
        let front = rows.drop_last();
        let last = rows.last();
        assert forall|i: int| 0 <= i < front.len() implies ranges_fit(#[trigger] front[i]) by {
            assert(front[i] == rows[i]);
        }
        assert(ranges_fit(rows[rows.len() - 1]));
        lemma_add_match_fits(front, line, text, range, c);
        lemma_length_fits(text_bytes(last.text));
        assert forall|i: int| 0 <= i < res.len() implies ranges_fit(#[trigger] res[i]) by {
            if last.line < line {
                if i < rows.len() {
                    assert(res[i] == rows[i]);
                }
            } else if last.line == line {
                if i < front.len() {
                    assert(res[i] == front[i]);
                } else {
                    let part = listed(range_within(last.text, c));
                    assert(res[i].ranges == last.ranges + part);
                    assert forall|k: int| 0 <= k < res[i].ranges.len() implies (
                    #[trigger] res[i].ranges[k]).0 <= res[i].ranges[k].1 <= text_bytes(
                        last.text,
                    ) by {
                        if k < last.ranges.len() {
                            assert(res[i].ranges[k] == last.ranges[k]);
                        } else {
                            assert(res[i].ranges[k] == part[k - last.ranges.len()]);
                        }
                    }
                }
            } else if i < res.len() - 1 {
                assert(res[i] == add_match(front, line, text, range, c)[i]);
            }
        }
    }
}

proof fn lemma_merged_fit(h: Seq<u8>, matches: Seq<(int, int)>)
    ensures
        forall|i: int|
            0 <= i < merged_rows(h, matches).len() ==> ranges_fit(
                #[trigger] merged_rows(h, matches)[i],
            ),
    decreases matches.len(),
{
    if matches.len() > 0 {
        let m = matches.last();
        lemma_merged_fit(h, matches.drop_last());
        lemma_length_fits(text_bytes(shown_text(h, m)));
        lemma_add_match_fits(
            merged_rows(h, matches.drop_last()),
            line_of(h, m.0),
            shown_text(h, m),
            shown_range(h, m),
            columns(h, m),
        );
    }
}

/// The ranges of the rows of a file lie within the texts of their rows, whatever
/// the search is asked to show.
pub proof fn law_ranges_lie_within_text(
    h: Seq<u8>,
    matches: Seq<(int, int)>,
    invert_match: bool,
    only_matching: bool,
    max_count: usize,
    i: int,
)
    requires
        0 <= i < file_rows(h, matches, invert_match, only_matching, max_count).len(),
    ensures
        ranges_fit(file_rows(h, matches, invert_match, only_matching, max_count)[i]),
{
    let rows = file_rows(h, matches, invert_match, only_matching, max_count);
    if invert_match {
        lemma_unmatched_plain(lines(utf8_lossy(h)), matched_lines(h, matches));
    } else if only_matching {
        lemma_length_fits(text_bytes(rows[i].text));
    } else {
        lemma_merged_fit(h, at_most(matches, max_count as int));
    }
}

/// The rows of an inverted search have no ranges.
proof fn lemma_unmatched_plain(text: Seq<Seq<char>>, matched: Set<u32>)
    ensures
        forall|i: int|
            0 <= i < unmatched_rows(text, matched).len() ==> (#[trigger] unmatched_rows(
                text,
                matched,
            )[i]).ranges.len() == 0,
    decreases text.len(),
{
    if text.len() > 0 {
        let rest = unmatched_rows(text.drop_last(), matched);
        let all = unmatched_rows(text, matched);
        lemma_unmatched_plain(text.drop_last(), matched);
        assert forall|i: int| 0 <= i < all.len() implies (#[trigger] all[i]).ranges.len()
            == 0 by {
            if i < rest.len() {
                assert(all[i] == rest[i]);
            }
        }
    }
}

/// The lines without a match are in the rows of an inverted search.
proof fn lemma_unmatched_rows(text: Seq<Seq<char>>, matched: Set<u32>, line: u32)
    requires
        text.len() <= u32::MAX,
    ensures
        rows_ascend(unmatched_rows(text, matched)),
        has_row(unmatched_rows(text, matched), line) <==> 1 <= line <= text.len()
            && !matched.contains(line),
        forall|i: int|
            0 <= i < unmatched_rows(text, matched).len() ==> (#[trigger] unmatched_rows(
                text,
                matched,
            )[i]).line <= text.len(),
    decreases text.len(),
{
    if text.len() > 0 {
        let front = text.drop_last();
        let rest = unmatched_rows(front, matched);
        lemma_unmatched_rows(front, matched, line);
        let n = text.len() as u32;
        if !matched.contains(n) {
            lemma_push_row(rest, RowView { line: n, text: text.last(), ranges: seq![] }, line);
        }
    }
}

/// An inverted search gives the lines that a search does not: of the lines of
/// a file each is in the rows of one of the two.
pub proof fn law_inverted_rows_are_the_others(h: Seq<u8>, matches: Seq<(int, int)>, line: u32)
    requires
        1 <= line <= lines(utf8_lossy(h)).len() <= u32::MAX,
        lines(utf8_lossy(h)).len() <= usize::MAX,
        matches.len() <= usize::MAX,
    ensures
        has_row(file_rows(h, matches, true, false, usize::MAX), line) <==> !has_row(
            file_rows(h, matches, false, false, usize::MAX),
            line,
        ),
        rows_ascend(file_rows(h, matches, true, false, usize::MAX)),
        rows_ascend(file_rows(h, matches, false, false, usize::MAX)),
{
    let text = lines(utf8_lossy(h));
    law_rows_are_matched_lines(h, matches, line);
    lemma_unmatched_rows(text, matched_lines(h, matches), line);
    lemma_unmatched_len(text, matched_lines(h, matches));
}

/// There are no more rows than lines.
proof fn lemma_unmatched_len(text: Seq<Seq<char>>, matched: Set<u32>)
    ensures
        unmatched_rows(text, matched).len() <= text.len(),
    decreases text.len(),
{
    if text.len() > 0 {
        lemma_unmatched_len(text.drop_last(), matched);
    }
}

/// The rows of the first lines are the first rows.
proof fn lemma_unmatched_prefix(text: Seq<Seq<char>>, matched: Set<u32>, k: int)
    requires
        0 <= k <= text.len(),
    ensures
        unmatched_rows(text.take(k), matched).len() <= unmatched_rows(text, matched).len(),
        unmatched_rows(text, matched).take(
            unmatched_rows(text.take(k), matched).len() as int,
        ) == unmatched_rows(text.take(k), matched),
    decreases text.len(),
{
    let part = unmatched_rows(text.take(k), matched);
    let full = unmatched_rows(text, matched);
    if k == text.len() {
        assert(text.take(k) =~= text);
        assert(full.take(full.len() as int) =~= full);
    } else {
        let front = text.drop_last();
        lemma_unmatched_prefix(front, matched, k);
        assert(front.take(k) =~= text.take(k));
        assert(full.take(part.len() as int) =~= part);
    }
}

/// The numbers of the lines that matches start on.
fn lines_with_match(
    content: &[u8],
    matches: &Vec<(usize, usize)>,
    index: &NewlineIndex,
) -> (res: HashSet<u32>)
    requires
        index.indexes(content@),
    ensures
        res@ == matched_lines(content@, spans(matches@)),
{
    let mut set: HashSet<u32> = HashSet::new();
    let ghost numbers = spans(matches@).map_values(|m: (int, int)| line_of(content@, m.0));
    let mut i: usize = 0;
    while i < matches.len()
        invariant
            i <= matches@.len(),
            index.indexes(content@),
            numbers == spans(matches@).map_values(|m: (int, int)| line_of(content@, m.0)),
            forall|n: u32| #[trigger]
                set@.contains(n) <==> exists|j: int| 0 <= j < i && #[trigger] numbers[j] == n,
        decreases matches@.len() - i,
    {
        let ghost before = set@;
        let (line, _start, _bytes) = index.byte_to_line(content, matches[i].0);
        assert(numbers[i as int] == line);
        set.insert(line);
        assert forall|n: u32| #[trigger] set@.contains(n) <==> exists|j: int|
            0 <= j < i + 1 && #[trigger] numbers[j] == n by {
            if before.contains(n) {
                let j = choose|j: int| 0 <= j < i && #[trigger] numbers[j] == n;
                assert(numbers[j] == n);
            }
            if n == line {
                assert(numbers[i as int] == n);
            }
        }
        i = i + 1;
    }
    assert forall|n: u32| set@.contains(n) == numbers.to_set().contains(n) by {
        if set@.contains(n) {
            let j = choose|j: int| 0 <= j < i && #[trigger] numbers[j] == n;
            assert(numbers.contains(numbers[j]));
        }
        if numbers.to_set().contains(n) {
            assert(numbers.contains(n));
            let j = numbers.index_of(n);
            assert(numbers[j] == n);
        }
    }
    assert(set@ =~= numbers.to_set());
    set
}

/// The lines without a match.
fn find_unmatched(
    content: &[u8],
    matches: &Vec<(usize, usize)>,
    index: &NewlineIndex,
    max_count: usize,
) -> (res: Vec<Row>)
    requires
        index.indexes(content@),
    ensures
        row_views(res@) == inverted_rows(content@, spans(matches@), max_count),
{
    let matched = lines_with_match(content, matches, index);
    let text = text_lossy(content);
    let all = split_lines(text.as_str());
    let ghost cap: int = if max_count == 0 {
        1
    } else {
        max_count as int
    };
    let ghost shown = texts(all@);
    let mut rows: Vec<Row> = Vec::new();
    let mut i: usize = 0;
    assert(shown.take(0) =~= seq![]);
    assert(row_views(rows@) =~= seq![]);
    while i < all.len()
        invariant
            i <= all@.len(),
            shown == texts(all@),
            shown == lines(utf8_lossy(content@)),
            matched@ == matched_lines(content@, spans(matches@)),
            cap == if max_count == 0 {
                1
            } else {
                max_count as int
            },
            row_views(rows@) == unmatched_rows(shown.take(i as int), matched@),
            rows@.len() < cap,
        decreases all@.len() - i,
    {
        let line = (i + 1) as u32;
        let ghost next = shown.take(i + 1);
        let ghost before = rows@;
        assert(next.drop_last() =~= shown.take(i as int));
        assert(next.last() == all@[i as int]@);
        if !matched.contains(&line) {
            rows.push(Row { line, text: all[i].clone(), ranges: Vec::new() });
            assert(rows@.last()@ =~= RowView { line, text: next.last(), ranges: seq![] });
            assert(row_views(rows@) =~= row_views(before).push(rows@.last()@));
            if rows.len() >= max_count {
                proof {
                    lemma_unmatched_prefix(shown, matched@, i + 1);
                    let full = unmatched_rows(shown, matched@);
                    if full.len() <= cap {
                        assert(full.take(full.len() as int) =~= full);
                    }
                }
                return rows;
            }
        }
        i = i + 1;
    }
    assert(shown.take(i as int) =~= shown);
    rows
}

/// The range of a whole text, unless it is empty.
fn whole_range(text: &str) -> (res: Option<(u32, u32)>)
    ensures
        res == whole(text@),
{
    if text.is_empty() {
        None
    } else {
        Some((0, text.len() as u32))
    }
}

/// The matched parts.
fn find_matched_parts(
    content: &[u8],
    matches: &Vec<(usize, usize)>,
    index: &NewlineIndex,
    max_count: usize,
) -> (res: Vec<Row>)
    requires
        index.indexes(content@),
        forall|i: int|
            0 <= i < matches@.len() ==> (#[trigger] matches@[i]).0 <= matches@[i].1
                <= content@.len(),
    ensures
        row_views(res@) == matching_rows(content@, spans(matches@), max_count),
{
    let n: usize = if matches.len() <= max_count {
        matches.len()
    } else {
        max_count
    };
    let ghost wanted = matching_rows(content@, spans(matches@), max_count);
    let mut rows: Vec<Row> = Vec::new();
    let mut i: usize = 0;
    while i < n
        invariant
            index.indexes(content@),
            forall|k: int|
                0 <= k < matches@.len() ==> (#[trigger] matches@[k]).0 <= matches@[k].1
                    <= content@.len(),
            i <= n <= matches@.len(),
            n == wanted.len(),
            wanted == matching_rows(content@, spans(matches@), max_count),
            rows@.len() == i,
            forall|k: int| 0 <= k < i ==> (#[trigger] rows@[k])@ == wanted[k],
        decreases n - i,
    {
        let (off, end) = matches[i];
        let (line, _start, _bytes) = index.byte_to_line(content, off);
        let part = vstd::slice::slice_subrange(content, off, end);
        let decoded = text_lossy(part);
        let text = escape_newlines(decoded.as_str());
        let mut ranges: Vec<(u32, u32)> = Vec::new();
        match whole_range(text.as_str()) {
            Some(r) => {
                ranges.push(r);
            },
            None => {},
        }
        assert(ranges@ =~= listed(whole(text@)));
        let row = Row { line, text, ranges };
        assert(spans(matches@)[i as int] == (off as int, end as int));
        assert(row@ =~= matched_row(content@, (off as int, end as int)));
        rows.push(row);
        i = i + 1;
    }
    assert(row_views(rows@) =~= wanted);
    rows
}

/// The part of a text between two columns, as far as the text goes.
fn part_of(text: &str, from: usize, to: usize) -> (res: Option<(u32, u32)>)
    ensures
        res == range_within(text@, (from as int, to as int)),
{
    let len = text.len() as u32;
    if to > from {
        Some((cap_at(from, len), cap_at(to, len)))
    } else {
        None
    }
}

/// Adds a match to rows that are ordered by line.
fn add_to_rows(
    rows: &mut Vec<Row>,
    line: u32,
    text: String,
    range: Option<(u32, u32)>,
    from: usize,
    to: usize,
)
    ensures
        row_views(final(rows)@) == add_match(
            row_views(old(rows)@),
            line,
            text@,
            range,
            (from as int, to as int),
        ),
{
    let ghost c = (from as int, to as int);
    let ghost all = row_views(rows@);
    let mut k: usize = rows.len();
    assert(all.take(k as int) =~= all);
    assert(add_match(all.take(k as int), line, text@, range, c) + all.skip(k as int) =~= add_match(
        all,
        line,
        text@,
        range,
        c,
    ));
    while k > 0 && rows[k - 1].line > line
        invariant
            rows@ == old(rows)@,
            all == row_views(rows@),
            c == (from as int, to as int),
            k <= rows@.len(),
            add_match(all.take(k as int), line, text@, range, c) + all.skip(k as int) == add_match(
                all,
                line,
                text@,
                range,
                c,
            ),
        decreases k,
    {
        let ghost head = all.take(k as int);
        assert(head.last() == rows@[k - 1]@);
        assert(head.drop_last() =~= all.take(k - 1));
        assert(add_match(all.take(k - 1), line, text@, range, c) + all.skip(k - 1) =~= add_match(
            all.take(k - 1),
            line,
            text@,
            range,
            c,
        ).push(head.last()) + all.skip(k as int));
        k = k - 1;
    }
    let ghost head = all.take(k as int);
    if k > 0 && rows[k - 1].line == line {
        assert(head.last() == rows@[k - 1]@);
        let part = part_of(rows[k - 1].text.as_str(), from, to);
        match part {
            Some(r) => {
                let mut row = rows.remove(k - 1);
                row.ranges.push(r);
                let ghost changed = row@;
                rows.insert(k - 1, row);
                assert(changed =~= RowView {
                    ranges: head.last().ranges + listed(part),
                    ..head.last()
                });
                assert(row_views(rows@) =~= head.drop_last().push(changed) + all.skip(k as int));
            },
            None => {
                assert(head.last().ranges + listed(part) =~= head.last().ranges);
                assert(row_views(rows@) =~= head.drop_last().push(head.last()) + all.skip(
                    k as int,
                ));
            },
        }
    } else {
        let mut ranges: Vec<(u32, u32)> = Vec::new();
        match range {
            Some(r) => {
                ranges.push(r);
            },
            None => {},
        }
        assert(ranges@ =~= listed(range));
        let row = Row { line, text, ranges };
        let ghost added = row@;
        rows.insert(k, row);
        if k > 0 {
            assert(head.last() == old(rows)@[k - 1]@);
        }
        assert(row_views(rows@) =~= head.push(added) + all.skip(k as int));
    }
}

/// The matching lines.
fn find_matching_lines(
    content: &[u8],
    matches: &Vec<(usize, usize)>,
    index: &NewlineIndex,
    max_count: usize,
) -> (res: Vec<Row>)
    requires
        index.indexes(content@),
        forall|i: int|
            0 <= i < matches@.len() ==> (#[trigger] matches@[i]).0 <= matches@[i].1
                <= content@.len(),
    ensures
        row_views(res@) == merged_rows(content@, at_most(spans(matches@), max_count as int)),
{
    let n: usize = if matches.len() <= max_count {
        matches.len()
    } else {
        max_count
    };
    let ghost h = content@;
    let ghost wanted = at_most(spans(matches@), max_count as int);
    let mut rows: Vec<Row> = Vec::new();
    let mut i: usize = 0;
    assert(wanted.take(0) =~= seq![]);
    assert(row_views(rows@) =~= seq![]);
    while i < n
        invariant
            h == content@,
            index.indexes(h),
            forall|k: int|
                0 <= k < matches@.len() ==> (#[trigger] matches@[k]).0 <= matches@[k].1
                    <= content@.len(),
            i <= n <= matches@.len(),
            n == wanted.len(),
            wanted == at_most(spans(matches@), max_count as int),
            row_views(rows@) == merged_rows(h, wanted.take(i as int)),
        decreases n - i,
    {
        let (off, end) = matches[i];
        let ghost m = (off as int, end as int);
        assert(spans(matches@)[i as int] == m);
        let (line, start, bytes) = index.byte_to_line(content, off);
        let part = vstd::slice::slice_subrange(content, off, end);
        let from: usize = if off >= start {
            off - start
        } else {
            0
        };
        let to: usize = if end >= start {
            end - start
        } else {
            0
        };
        let (text, range) = if end > off && has_newline(part) {
            let decoded = text_lossy(part);
            let text = escape_newlines(decoded.as_str());
            let range = whole_range(text.as_str());
            (text, range)
        } else {
            let text = text_lossy(bytes);
            let range = part_of(text.as_str(), from, to);
            (text, range)
        };
        assert(text@ == shown_text(h, m));
        assert(range == shown_range(h, m));
        add_to_rows(&mut rows, line, text, range, from, to);
        assert(wanted.take(i + 1).drop_last() =~= wanted.take(i as int));
        assert(wanted.take(i + 1).last() == m);
        i = i + 1;
    }
    assert(wanted.take(i as int) =~= wanted);
    rows
}

/// The smaller of a position and a length.
fn cap_at(p: usize, len: u32) -> (res: u32)
    ensures
        res == capped(p as int, len),
{
    if p <= len as usize {
        p as u32
    } else {
        len
    }
}

/// Whether the bytes hold a newline.
fn has_newline(bytes: &[u8]) -> (res: bool)
    ensures
        res == bytes@.contains(10u8),
{
    let mut i: usize = 0;
    while i < bytes.len()
        invariant
            i <= bytes@.len(),
            forall|j: int| 0 <= j < i ==> bytes@[j] != 10,
        decreases bytes@.len() - i,
    {
        if bytes[i] == 10 {
            return true;
        }
        i = i + 1;
    }
    false
}

/// The rows of a file for the given matches.
pub fn rows_of_matches(
    content: &[u8],
    matches: &Vec<(usize, usize)>,
    invert_match: bool,
    only_matching: bool,
    max_count: usize,
) -> (res: Vec<Row>)
    requires
        forall|i: int|
            0 <= i < matches@.len() ==> (#[trigger] matches@[i]).0 <= matches@[i].1
                <= content@.len(),
    ensures
        row_views(res@) == file_rows(
            content@,
            spans(matches@),
            invert_match,
            only_matching,
            max_count,
        ),
{
    let index = NewlineIndex::build(content);
    if invert_match {
        find_unmatched(content, matches, &index, max_count)
    } else if only_matching {
        find_matched_parts(content, matches, &index, max_count)
    } else {
        find_matching_lines(content, matches, &index, max_count)
    }
}

/// The rows of a file for the matches that `matcher` finds in it.
pub fn rows_of_file(
    content: &[u8],
    matcher: &Matcher,
    invert_match: bool,
    only_matching: bool,
    max_count: usize,
) -> (res: Vec<Row>)
    ensures
        row_views(res@) == file_rows(
            content@,
            matcher.matches(content@),
            invert_match,
            only_matching,
            max_count,
        ),
{
    let matches = matcher.find_iter(content);
    rows_of_matches(content, &matches, invert_match, only_matching, max_count)
}

/// What is shown of a text has each newline written as a backslash and an `n`,
/// and every other character as it is.
pub proof fn law_escaped(s: Seq<char>, c: char)
    ensures
        escaped(seq![]) == Seq::<char>::empty(),
        escaped(s.push('\n')) == escaped(s) + seq!['\\', 'n'],
        c != '\n' ==> escaped(s.push(c)) == escaped(s) + seq![c],
{
    assert(s.push('\n').drop_last() =~= s);
    assert(s.push(c).drop_last() =~= s);
    assert(escaped(s).push('\\').push('n') =~= escaped(s) + seq!['\\', 'n']);
    assert(escaped(s).push(c) =~= escaped(s) + seq![c]);
}

proof fn lemma_added_row(
    rows: Seq<RowView>,
    line: u32,
    text: Seq<char>,
    range: Option<(u32, u32)>,
    c: (int, int),
    i: int,
)
    requires
        rows_ascend(rows),
        0 <= i < add_match(rows, line, text, range, c).len(),
    ensures
        ({
            let r = add_match(rows, line, text, range, c)[i];
            if r.line != line {
                rows.contains(r)
            } else if has_row(rows, line) {
                exists|j: int|
                    0 <= j < rows.len() && (#[trigger] rows[j]).line == line && r.text
                        == rows[j].text && r.ranges == rows[j].ranges + listed(
                        range_within(rows[j].text, c),
                    )
            } else {
                r.text == text && r.ranges == listed(range)
            }
        }),
    decreases rows.len(),
{
    let all = add_match(rows, line, text, range, c);
    let r = all[i];
    if rows.len() == 0 || rows.last().line < line {
        if i < rows.len() {
            assert(rows[i] == r);
            assert(rows.contains(r));
        } else if has_row(rows, line) {
            let j = choose|j: int| 0 <= j < rows.len() && (#[trigger] rows[j]).line == line;
            assert(j == rows.len() - 1 || rows[j].line < rows[rows.len() - 1].line);
        }
    } else if rows.last().line == line {
        if i < rows.len() - 1 {
            assert(rows[i] == r);
            assert(rows[i].line < rows[rows.len() - 1].line);
            assert(rows.contains(r));
        } else {
            assert(rows[rows.len() - 1].line == line);
            assert(has_row(rows, line));
        }
    } else {
        let front = rows.drop_last();
        assert(rows_ascend(front)) by {
            assert forall|x: int, y: int| 0 <= x < y < front.len() implies (
            #[trigger] front[x]).line < (#[trigger] front[y]).line by {
                assert(rows[x].line < rows[y].line);
            }
        }
        lemma_push_row(front, rows.last(), line);
        assert(front.push(rows.last()) =~= rows);
        if i < all.len() - 1 {
            lemma_added_row(front, line, text, range, c, i);
            if r.line != line {
                assert(rows[front.index_of(r)] == r);
            } else if has_row(front, line) {
                let j = choose|j: int|
                    0 <= j < front.len() && (#[trigger] front[j]).line == line && r.text
                        == front[j].text && r.ranges == front[j].ranges + listed(
                        range_within(front[j].text, c),
                    );
                assert(rows[j] == front[j]);
            }
        } else {
            assert(rows[rows.len() - 1] == r);
            assert(rows.contains(r));
        }
    }
}

/// The match is the first one on its line.
pub open spec fn is_first_on_line(h: Seq<u8>, matches: Seq<(int, int)>, k: int) -> bool {
    forall|j: int| 0 <= j < k ==> line_of(h, (#[trigger] matches[j]).0) != line_of(h, matches[k].0)
}

/// A row shows the whole line of its first match, and the match itself, with its
/// newlines escaped, if that goes beyond the line.
pub proof fn law_rows_show_their_lines(h: Seq<u8>, matches: Seq<(int, int)>, i: int)
    requires
        0 <= i < merged_rows(h, matches).len(),
    ensures
        ({
            let r = merged_rows(h, matches)[i];
            exists|k: int|
                0 <= k < matches.len() && #[trigger] is_first_on_line(h, matches, k) && line_of(
                    h,
                    matches[k].0,
                ) == r.line && r.text == if matches[k].0 < matches[k].1 && h.subrange(
                    matches[k].0,
                    matches[k].1,
                ).contains(10u8) {
                    escaped(utf8_lossy(h.subrange(matches[k].0, matches[k].1)))
                } else {
                    utf8_lossy(line_bytes(h, matches[k].0))
                }
        }),
    decreases matches.len(),
{
    let (front, m) = (matches.drop_last(), matches.last());
    let before = merged_rows(h, front);
    let r = merged_rows(h, matches)[i];
    let line = line_of(h, m.0);
    law_rows_are_matched_lines(h, front, line);
    lemma_added_row(before, line, shown_text(h, m), shown_range(h, m), columns(h, m), i);
    if r.line != line || has_row(before, line) {
        let j = if r.line != line {
            before.index_of(r)
        } else {
            choose|j: int|
                0 <= j < before.len() && (#[trigger] before[j]).line == line && r.text
                    == before[j].text && r.ranges == before[j].ranges + listed(
                    range_within(before[j].text, columns(h, m)),
                )
        };
        law_rows_show_their_lines(h, front, j);
        let k = choose|k: int|
            0 <= k < front.len() && #[trigger] is_first_on_line(h, front, k) && line_of(
                h,
                front[k].0,
            ) == before[j].line && before[j].text == if front[k].0 < front[k].1 && h.subrange(
                front[k].0,
                front[k].1,
            ).contains(10u8) {
                escaped(utf8_lossy(h.subrange(front[k].0, front[k].1)))
            } else {
                utf8_lossy(line_bytes(h, front[k].0))
            };
        assert(is_first_on_line(h, matches, k)) by {
            assert forall|x: int| 0 <= x < k implies line_of(h, (#[trigger] matches[x]).0)
                != line_of(h, matches[k].0) by {
                assert(matches[x] == front[x]);
            }
        }
        assert(matches[k] == front[k]);
    } else {
        let k = matches.len() - 1;
        assert(is_first_on_line(h, matches, k)) by {
            assert forall|x: int| 0 <= x < k implies line_of(h, (#[trigger] matches[x]).0)
                != line_of(h, matches[k].0) by {
                let numbers = front.map_values(|m: (int, int)| line_of(h, m.0));
                assert(numbers[x] == line_of(h, front[x].0));
                assert(numbers.contains(numbers[x]));
            }
        }
    }
}

/// The columns from `from` to `to`, no further than a text of `len` bytes goes.
pub open spec fn within_text(from: int, to: int, len: u32) -> (u32, u32) {
    (
        if from <= len {
            from as u32
        } else {
            len
        },
        if to <= len {
            to as u32
        } else {
            len
        },
    )
}

/// A row marks every match on its line: among its ranges is that from the first
/// byte of the match to behind its last, counted from the start of the line, as far
/// as the text goes.
pub proof fn law_rows_mark_every_match(h: Seq<u8>, matches: Seq<(int, int)>, i: int, k: int)
    requires
        0 <= i < merged_rows(h, matches).len(),
        0 <= k < matches.len(),
        0 <= matches[k].0 < matches[k].1 <= h.len(),
        !h.subrange(matches[k].0, matches[k].1).contains(10u8),
        merged_rows(h, matches)[i].line == line_of(h, matches[k].0),
    ensures
        merged_rows(h, matches)[i].ranges.contains(
            within_text(
                matches[k].0 - line_start(h, matches[k].0),
                matches[k].1 - line_start(h, matches[k].0),
                text_bytes(merged_rows(h, matches)[i].text) as u32,
            ),
        ),
        line_start(h, matches[k].0) <= matches[k].0,
    decreases matches.len(),
{
    let (front, m) = (matches.drop_last(), matches.last());
    let before = merged_rows(h, front);
    let r = merged_rows(h, matches)[i];
    let line = line_of(h, m.0);
    let p = matches[k].0;
    law_line_of_a_byte(h, p);
    assert(line_start(h, p) <= p) by {
        if line_start(h, p) == p + 1 {
            assert(h.subrange(p, matches[k].1)[0] == 10u8);
            assert(h.subrange(p, matches[k].1).contains(10u8));
        }
    }
    let wanted = within_text(
        p - line_start(h, p),
        matches[k].1 - line_start(h, p),
        text_bytes(r.text) as u32,
    );
    law_rows_are_matched_lines(h, front, line);
    lemma_added_row(before, line, shown_text(h, m), shown_range(h, m), columns(h, m), i);
    if k < front.len() {
        assert(front[k] == matches[k]);
        law_rows_are_matched_lines(h, front, r.line);
        let numbers = front.map_values(|m: (int, int)| line_of(h, m.0));
        assert(numbers[k] == r.line);
        assert(numbers.contains(r.line));
        assert(has_row(before, r.line));
        let j = if r.line != line {
            before.index_of(r)
        } else {
            choose|j: int|
                0 <= j < before.len() && (#[trigger] before[j]).line == line && r.text
                    == before[j].text && r.ranges == before[j].ranges + listed(
                    range_within(before[j].text, columns(h, m)),
                )
        };
        law_rows_mark_every_match(h, front, j, k);
        let x = before[j].ranges.index_of(wanted);
        assert(r.ranges[x] == wanted);
    } else {
        assert(matches[k] == m);
        assert(range_within(r.text, columns(h, m)) == Some(wanted));
        assert(listed(Some(wanted))[0] == wanted);
        if has_row(before, line) {
            let j = choose|j: int|
                0 <= j < before.len() && (#[trigger] before[j]).line == line && r.text
                    == before[j].text && r.ranges == before[j].ranges + listed(
                    range_within(before[j].text, columns(h, m)),
                );
            assert(r.ranges[before[j].ranges.len() as int] == wanted);
        } else {
            assert(r.ranges[0] == wanted);
        }
    }
}

/// With only the matches asked for, each of the first `max_count` matches gives a
/// row, in their order: the line it starts on, and the text of the match with its
/// newlines escaped, all of it in the range.
pub proof fn law_parts_are_the_matches(
    h: Seq<u8>,
    matches: Seq<(int, int)>,
    max_count: usize,
    i: int,
)
    ensures
        file_rows(h, matches, false, true, max_count).len() == if matches.len() <= max_count {
            matches.len() as int
        } else {
            max_count as int
        },
        0 <= i < file_rows(h, matches, false, true, max_count).len() ==> {
            let r = file_rows(h, matches, false, true, max_count)[i];
            &&& r.line == line_of(h, matches[i].0)
            &&& r.text == escaped(utf8_lossy(h.subrange(matches[i].0, matches[i].1)))
            &&& r.text.len() > 0 ==> r.ranges == seq![(0u32, text_bytes(r.text) as u32)]
            &&& r.text.len() == 0 ==> r.ranges.len() == 0
        },
{
}

proof fn lemma_unmatched_shows_lines(text: Seq<Seq<char>>, matched: Set<u32>, i: int)
    requires
        0 <= i < unmatched_rows(text, matched).len(),
        text.len() <= u32::MAX,
    ensures
        ({
            let r = unmatched_rows(text, matched)[i];
            1 <= r.line <= text.len() && r.text == text[r.line - 1] && r.ranges.len() == 0
                && !matched.contains(r.line)
        }),
    decreases text.len(),
{
    let rest = unmatched_rows(text.drop_last(), matched);
    if i < rest.len() {
        lemma_unmatched_shows_lines(text.drop_last(), matched, i);
        assert(unmatched_rows(text, matched)[i] == rest[i]);
    }
}

/// With the other lines asked for, each row is a line of the file as it stands on
/// which no match starts, with nothing marked, whether or not only the matches are
/// asked for too. There are no more rows than asked for, or one if none was, and
/// they are the first ones.
pub proof fn law_inverted_rows_show_their_lines(
    h: Seq<u8>,
    matches: Seq<(int, int)>,
    only_matching: bool,
    max_count: usize,
    i: int,
)
    requires
        lines(utf8_lossy(h)).len() <= u32::MAX,
        lines(utf8_lossy(h)).len() <= usize::MAX,
    ensures
        ({
            let rows = file_rows(h, matches, true, only_matching, max_count);
            let all = file_rows(h, matches, true, false, usize::MAX);
            let wanted: int = if max_count == 0 {
                1
            } else {
                max_count as int
            };
            &&& rows.len() == if all.len() <= wanted {
                all.len() as int
            } else {
                wanted
            }
            &&& 0 <= i < rows.len() ==> {
                &&& rows[i] == all[i]
                &&& 1 <= rows[i].line <= lines(utf8_lossy(h)).len()
                &&& rows[i].text == lines(utf8_lossy(h))[rows[i].line - 1]
                &&& rows[i].ranges.len() == 0
                &&& forall|k: int|
                    0 <= k < matches.len() ==> line_of(h, (#[trigger] matches[k]).0)
                        != rows[i].line
            }
        }),
{
    let text = lines(utf8_lossy(h));
    let matched = matched_lines(h, matches);
    let rows = file_rows(h, matches, true, only_matching, max_count);
    lemma_unmatched_count(text, matched);
    if 0 <= i < rows.len() {
        lemma_unmatched_shows_lines(text, matched, i);
        assert forall|k: int| 0 <= k < matches.len() implies line_of(
            h,
            (#[trigger] matches[k]).0,
        ) != rows[i].line by {
            let numbers = matches.map_values(|m: (int, int)| line_of(h, m.0));
            assert(numbers[k] == line_of(h, matches[k].0));
            assert(numbers.contains(numbers[k]));
        }
    }
}

proof fn lemma_unmatched_count(text: Seq<Seq<char>>, matched: Set<u32>)
    ensures
        unmatched_rows(text, matched).len() <= text.len(),
    decreases text.len(),
{
    if text.len() > 0 {
        lemma_unmatched_count(text.drop_last(), matched);
    }
}

/// The rows of a file are those of its first `max_count` matches, and of no other.
pub proof fn law_first_matches_count(
    h: Seq<u8>,
    matches: Seq<(int, int)>,
    only_matching: bool,
    max_count: usize,
)
    requires
        max_count <= matches.len(),
    ensures
        file_rows(h, matches, false, only_matching, max_count) == file_rows(
            h,
            matches.take(max_count as int),
            false,
            only_matching,
            usize::MAX,
        ),
        file_rows(h, matches.take(max_count as int), false, false, usize::MAX) == merged_rows(
            h,
            matches.take(max_count as int),
        ),
{
    let part = matches.take(max_count as int);
    assert(at_most(part, usize::MAX as int) =~= part);
    assert(at_most(matches, max_count as int) =~= part);
}

/// The number of the line on which a byte stands.
pub proof fn law_line_of(h: Seq<u8>, off: int)
    requires
        0 <= off < h.len(),
        newline_count(h.take(off + 1)) < u32::MAX,
    ensures
        line_of(h, off) == newline_count(h.take(off + 1)) + 1,
{
    law_line_of_a_byte(h, off);
}

/// The columns of a match are counted from the start of its line. A match that starts
/// with the newline before the line starts at its first column.
pub proof fn law_columns(h: Seq<u8>, m: (int, int))
    requires
        0 <= m.0 < m.1 <= h.len(),
    ensures
        h[m.0] == 10 ==> columns(h, m) == (0int, m.1 - m.0 - 1),
        h[m.0] != 10 ==> columns(h, m) == (m.0 - line_start(h, m.0), m.1 - line_start(h, m.0)),
        0 <= columns(h, m).0 <= columns(h, m).1,
{
    law_line_of_a_byte(h, m.0);
}

} // verus!
