//! What a search finds in one file.

use vstd::prelude::*;
use vstd::utf8::decode_utf8;
use vstd::utf8::valid_utf8;

use crate::hits::GrepHit;
use crate::hits::HitView;
use crate::hits::views;
use crate::rows::Row;
use crate::rows::RowView;
use crate::rows::row_views;
use crate::rows::text_strict;
use crate::text::lines;
use crate::text::split_lines;
use crate::text::texts;

verus! {

/// The smaller of two numbers.
pub open spec fn lesser(a: int, b: int) -> int {
    if a <= b {
        a
    } else {
        b
    }
}

/// The position of a line in the list of all lines.
pub open spec fn line_index(line: u32) -> int {
    if line == 0 {
        0
    } else {
        line - 1
    }
}

/// The lines just before the line with the number `line`, `before` of them at
/// most.
pub open spec fn lines_before(all: Seq<Seq<char>>, line: u32, before: int) -> Seq<Seq<char>> {
    let idx = lesser(line_index(line), all.len() as int);
    all.subrange(
        if idx <= before {
            0
        } else {
            idx - before
        },
        idx,
    )
}

/// The lines just after the line with the number `line`, `after` of them at
/// most.
pub open spec fn lines_after(all: Seq<Seq<char>>, line: u32, after: int) -> Seq<Seq<char>> {
    let n = all.len() as int;
    let from = lesser(line_index(line) + 1, n);
    all.subrange(from, lesser(from + after, n))
}

/// A line and its context are lines of the file in a row: as many as are asked
/// for on either side, or as many as there are.
pub proof fn law_context_surrounds_line(all: Seq<Seq<char>>, line: u32, before: int, after: int)
    requires
        1 <= line <= all.len(),
        0 <= before,
        0 <= after,
    ensures
        lines_before(all, line, before) + seq![all[line - 1]] + lines_after(all, line, after)
            == all.subrange(
            line - 1 - lines_before(all, line, before).len(),
            line + lines_after(all, line, after).len(),
        ),
        lines_before(all, line, before).len() == lesser(before, line - 1),
        lines_after(all, line, after).len() == lesser(after, all.len() - line),
{
    let (b, a) = (lines_before(all, line, before), lines_after(all, line, after));
    assert(b + seq![all[line - 1]] + a =~= all.subrange(line - 1 - b.len(), line + a.len()));
}

/// The lines that context is taken from: those of the file if it is UTF-8 and
/// context is asked for, else none.
pub open spec fn context_source(h: Seq<u8>, before: int, after: int) -> Seq<Seq<char>> {
    if (before > 0 || after > 0) && valid_utf8(h) {
        lines(decode_utf8(h))
    } else {
        seq![]
    }
}

/// The hit of a row.
pub open spec fn row_hit(
    path: Seq<char>,
    row: RowView,
    source: Seq<Seq<char>>,
    before: int,
    after: int,
) -> HitView {
    HitView {
        path,
        line: row.line,
        text: row.text,
        ranges: row.ranges,
        before: lines_before(source, row.line, before),
        after: lines_after(source, row.line, after),
    }
}

/// The hits of the rows of a file.
pub open spec fn row_hits(
    path: Seq<char>,
    h: Seq<u8>,
    rows: Seq<RowView>,
    before: int,
    after: int,
) -> Seq<HitView> {
    rows.map_values(|r: RowView| row_hit(path, r, context_source(h, before, after), before, after))
}

/// A copy of the texts from `from` to before `to`.
fn copy_texts(all: &Vec<String>, from: usize, to: usize) -> (res: Vec<String>)
    requires
        from <= to <= all@.len(),
    ensures
        texts(res@) == texts(all@).subrange(from as int, to as int),
{
    let mut res: Vec<String> = Vec::new();
    let mut i: usize = from;
    while i < to
        invariant
            from <= i <= to <= all@.len(),
            res@.len() == i - from,
            forall|k: int| 0 <= k < res@.len() ==> (#[trigger] res@[k])@ == all@[from + k]@,
        decreases to - i,
    {
        res.push(all[i].clone());
        i = i + 1;
    }
    assert(texts(res@) =~= texts(all@).subrange(from as int, to as int));
    res
}

/// The context of the line with the number `line`.
fn context_of(all: &Vec<String>, line: u32, before: usize, after: usize) -> (res: (
    Vec<String>,
    Vec<String>,
))
    ensures
        texts(res.0@) == lines_before(texts(all@), line, before as int),
        texts(res.1@) == lines_after(texts(all@), line, after as int),
{
    let n = all.len();
    let position: usize = if line == 0 {
        0
    } else {
        (line - 1) as usize
    };
    let idx: usize = if position <= n {
        position
    } else {
        n
    };
    let start: usize = if idx <= before {
        0
    } else {
        idx - before
    };
    let from: usize = if position < n {
        position + 1
    } else {
        n
    };
    let end: usize = if after <= n - from {
        from + after
    } else {
        n
    };
    (copy_texts(all, start, idx), copy_texts(all, from, end))
}

/// The hits of the rows of a file, with their context.
pub fn hits_of_rows(
    path: &str,
    content: &[u8],
    rows: Vec<Row>,
    before: usize,
    after: usize,
) -> (res: Vec<GrepHit>)
    ensures
        views(res@) == row_hits(
            path@,
            content@,
            row_views(rows@),
            before as int,
            after as int,
        ),
{
    let source: Vec<String> = if before > 0 || after > 0 {
        match text_strict(content) {
            Some(text) => split_lines(text.as_str()),
            None => Vec::new(),
        }
    } else {
        Vec::new()
    };
    let ghost from = context_source(content@, before as int, after as int);
    assert(texts(source@) =~= from);
    let ghost wanted = row_hits(path@, content@, row_views(rows@), before as int, after as int);
    let mut res: Vec<GrepHit> = Vec::new();
    let mut i: usize = 0;
    while i < rows.len()
        invariant
            i <= rows@.len(),
            texts(source@) == from,
            from == context_source(content@, before as int, after as int),
            wanted == row_hits(
                path@,
                content@,
                row_views(rows@),
                before as int,
                after as int,
            ),
            res@.len() == i,
            forall|k: int| 0 <= k < i ==> (#[trigger] res@[k])@ == wanted[k],
        decreases rows@.len() - i,
    {
        let row = &rows[i];
        let (context_before, context_after) = context_of(&source, row.line, before, after);
        let hit = GrepHit {
            path: path.to_owned(),
            line: row.line,
            text: row.text.clone(),
            match_ranges: copy_ranges(&row.ranges),
            context_before,
            context_after,
        };
        assert(row_views(rows@)[i as int] == row@);
        assert(hit@ =~= row_hit(path@, row@, from, before as int, after as int));
        res.push(hit);
        i = i + 1;
    }
    assert(views(res@) =~= wanted);
    res
}

/// A copy of a list of ranges.
fn copy_ranges(ranges: &Vec<(u32, u32)>) -> (res: Vec<(u32, u32)>)
    ensures
        res@ == ranges@,
{
    vstd::slice::slice_to_vec(ranges.as_slice())
}

/// The lesser of two numbers.
pub proof fn law_lesser(a: int, b: int)
    ensures
        lesser(a, b) <= a,
        lesser(a, b) <= b,
        lesser(a, b) == a || lesser(a, b) == b,
{
}

/// Each row of a file gives one hit, in the same order, with the path of the file
/// and the line, the text and the ranges of the row. Where context is asked for
/// and the file is text, the hit has the lines around that line, no more than
/// were asked for; where it is not, the hit has none.
pub proof fn law_rows_become_hits(
    path: Seq<char>,
    h: Seq<u8>,
    rows: Seq<RowView>,
    before: int,
    after: int,
    i: int,
)
    requires
        0 <= i < rows.len(),
        0 <= before,
        0 <= after,
    ensures
        row_hits(path, h, rows, before, after).len() == rows.len(),
        ({
            let hit = row_hits(path, h, rows, before, after)[i];
            let source = lines(decode_utf8(h));
            &&& hit.path == path
            &&& hit.line == rows[i].line
            &&& hit.text == rows[i].text
            &&& hit.ranges == rows[i].ranges
            &&& hit.before.len() <= before
            &&& hit.after.len() <= after
            &&& !valid_utf8(h) ==> hit.before.len() == 0 && hit.after.len() == 0
            &&& valid_utf8(h) && (before > 0 || after > 0) && 1 <= hit.line <= source.len() ==> {
                let from = hit.line - 1 - hit.before.len();
                let to = hit.line + hit.after.len();
                &&& hit.before + seq![source[hit.line - 1]] + hit.after == source.subrange(from, to)
                &&& from == 0 || hit.before.len() == before
                &&& to == source.len() || hit.after.len() == after
            }
        }),
{
    let source = lines(decode_utf8(h));
    let line = rows[i].line;
    if valid_utf8(h) && (before > 0 || after > 0) && 1 <= line <= source.len() {
        law_context_surrounds_line(source, line, before, after);
    }
}

} // verus!
