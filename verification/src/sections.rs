//! Sections of source files: the lines of a definition, and how much of them is
//! shown.

use vstd::prelude::*;
use vstd::string::StringExecFns;
use vstd::utf8::decode_utf8;
use vstd::utf8::encode_utf8;
use vstd::utf8::valid_utf8;

use crate::calls::CallError;
use crate::calls::ErrorView;
use crate::matcher::lowercased;
use crate::rows::text_strict;
use crate::search::lesser;
use crate::search::line_index;
use crate::text::decimal;
use crate::text::law_lines;
use crate::text::lines;
use crate::text::split_lines;
use crate::text::texts;
use crate::text::to_decimal;
use crate::tree::EntryView;
use crate::tree::OutlineEntry;
use crate::tree::deepest;
use crate::tree::deepest_containing;
use crate::tree::spans;
use crate::tree::tree_views;

verus! {

/// Lines, each with its end.
pub open spec fn with_ends(text: Seq<Seq<char>>) -> Seq<char>
    decreases text.len(),
{
    if text.len() == 0 {
        seq![]
    } else {
        with_ends(text.drop_last()) + text.last().push('\n')
    }
}

/// Lines, with an end between each two of them.
pub open spec fn joined_lines(text: Seq<Seq<char>>) -> Seq<char>
    decreases text.len(),
{
    if text.len() == 0 {
        seq![]
    } else if text.len() == 1 {
        text[0]
    } else {
        joined_lines(text.drop_last()).push('\n') + text.last()
    }
}

/// The lines from `start_line` to `end_line`, as far as there are such lines.
pub open spec fn lines_from_to(text: Seq<Seq<char>>, start_line: u32, end_line: u32) -> Seq<
    Seq<char>,
> {
    let to = lesser(end_line as int, text.len() as int);
    let from = line_index(start_line);
    if from < to {
        text.subrange(from, to)
    } else {
        seq![]
    }
}

/// The bounds of the lines from `start_line` to `end_line` in a list of `n`.
pub fn bounds(n: usize, start_line: u32, end_line: u32) -> (res: (usize, usize))
    ensures
        res.0 <= res.1 <= n,
        forall|text: Seq<Seq<char>>|
            text.len() == n ==> #[trigger] lines_from_to(text, start_line, end_line)
                == text.subrange(res.0 as int, res.1 as int),
        res.0 < res.1 ==> res.0 == line_index(start_line),
{
    let from: usize = if start_line == 0 {
        0
    } else {
        (start_line - 1) as usize
    };
    let to: usize = if end_line as usize <= n {
        end_line as usize
    } else {
        n
    };
    if from < to {
        (from, to)
    } else {
        assert forall|text: Seq<Seq<char>>| text.len() == n implies #[trigger] lines_from_to(
            text,
            start_line,
            end_line,
        ) == text.subrange(0, 0) by {
            assert(text.subrange(0, 0) =~= seq![]);
        }
        (0, 0)
    }
}

/// The lines from `start_line` to `end_line`, each with its end.
pub fn slice_lines(content: &str, start_line: u32, end_line: u32) -> (res: String)
    ensures
        res@ == with_ends(lines_from_to(lines(content@), start_line, end_line)),
{
    let all = split_lines(content);
    let ghost text = lines(content@);
    assert(texts(all@).len() == all@.len());
    let (from, to) = bounds(all.len(), start_line, end_line);
    let ghost part = lines_from_to(text, start_line, end_line);
    let mut out = String::new();
    let mut i: usize = from;
    assert(part.take(0) =~= seq![]);
    assert(out@ =~= seq![]);
    while i < to
        invariant
            from <= i <= to <= all@.len(),
            texts(all@) == text,
            part == text.subrange(from as int, to as int),
            out@ == with_ends(part.take(i - from)),
        decreases to - i,
    {
        let ghost before = out@;
        assert(part.take(i - from + 1).drop_last() =~= part.take(i - from));
        assert(part.take(i - from + 1).last() == all@[i as int]@);
        out.append(all[i].as_str());
        out.push('\n');
        assert(out@ =~= before + all@[i as int]@.push('\n'));
        i = i + 1;
    }
    assert(part.take(i - from) =~= part);
    out
}

/// The first `max_lines` of the lines from `start_line` to `end_line`; nothing
/// of a file that could not be read.
pub open spec fn excerpt_of(
    content: Option<String>,
    start_line: u32,
    end_line: u32,
    max_lines: usize,
) -> Seq<char> {
    match content {
        Some(text) => {
            let part = lines_from_to(lines(text@), start_line, end_line);
            joined_lines(part.take(lesser(part.len() as int, max_lines as int)))
        },
        None => seq![],
    }
}

/// The first lines of a definition.
pub fn read_section_excerpt(
    content: &Option<String>,
    start_line: u32,
    end_line: u32,
    max_lines: usize,
) -> (res: String)
    ensures
        res@ == excerpt_of(*content, start_line, end_line, max_lines),
{
    let mut out = String::new();
    assert(out@ =~= seq![]);
    match content {
        None => {},
        Some(content) => {
            let all = split_lines(content.as_str());
            let ghost text = lines(content@);
            assert(texts(all@).len() == all@.len());
            let (from, end) = bounds(all.len(), start_line, end_line);
            let to: usize = if max_lines <= end - from {
                from + max_lines
            } else {
                end
            };
            let ghost whole = lines_from_to(text, start_line, end_line);
            let ghost part = whole.take(lesser(whole.len() as int, max_lines as int));
            assert(part =~= text.subrange(from as int, to as int));
            let mut i: usize = from;
            assert(part.take(0) =~= seq![]);
            while i < to
                invariant
                    from <= i <= to <= all@.len(),
                    texts(all@) == text,
                    part == text.subrange(from as int, to as int),
                    out@ == joined_lines(part.take(i - from)),
                decreases to - i,
            {
                let ghost before = out@;
                let ghost next = part.take(i - from + 1);
                assert(next.drop_last() =~= part.take(i - from));
                assert(next.last() == all@[i as int]@);
                if i > from {
                    out.push('\n');
                    out.append(all[i].as_str());
                    assert(out@ =~= before.push('\n') + all@[i as int]@);
                } else {
                    out.append(all[i].as_str());
                    assert(out@ =~= all@[i as int]@);
                }
                i = i + 1;
            }
            assert(part.take(i - from) =~= part);
        },
    }
    out
}

/// The head line of a section.
pub open spec fn section_head(e: EntryView) -> Seq<char> {
    "// "@ + lowercased(e.kind) + " "@ + e.name + " (lines "@ + decimal(e.start_line as nat) + "-"@
        + decimal(e.end_line as nat) + ")\n"@
}

/// The head line of a section and its lines.
#[derive(Debug)]
pub struct Section {
    /// The head line.
    pub head: String,
    /// The lines.
    pub slice: String,
}

/// The message where no section encloses a line.
pub open spec fn no_section(line: u32) -> Seq<char> {
    "no structural section contains line "@ + decimal(line as nat)
}

/// The section that encloses a line: that of the innermost entry.
pub fn section_body(content: &str, outline: &Vec<OutlineEntry>, line: u32) -> (res: Result<
    Section,
    CallError,
>)
    ensures
        match res {
            Ok(section) => deepest(tree_views(outline@), line) matches Some(e) && {
                &&& section.head@ == section_head(e)
                &&& section.slice@ == with_ends(
                    lines_from_to(lines(content@), e.start_line, e.end_line),
                )
            },
            Err(e) => {
                &&& deepest(tree_views(outline@), line) is None
                &&& e@ == ErrorView::Failed(no_section(line))
            },
        },
{
    match deepest_containing(outline, line) {
        Some(e) => {
            let head = String::from_str("// ").concat(
                e.kind.as_str().to_lowercase().as_str(),
            ).concat(" ").concat(e.name.as_str()).concat(" (lines ").concat(
                to_decimal(e.start_line as u64).as_str(),
            ).concat("-").concat(to_decimal(e.end_line as u64).as_str()).concat(")\n");
            Ok(Section { head, slice: slice_lines(content, e.start_line, e.end_line) })
        },
        None => Err(
            CallError::Failed(
                String::from_str("no structural section contains line ").concat(
                    to_decimal(line as u64).as_str(),
                ),
            ),
        ),
    }
}

/// How many bytes of a body are shown: four to a token of its budget, and no
/// more than a result may have.
pub fn body_limit(body_tokens: u64, max_bytes_per_result: usize) -> (res: usize)
    requires
        body_tokens * 4 <= u64::MAX,
    ensures
        res == lesser(((body_tokens * 4) as usize) as int, max_bytes_per_result as int),
{
    let bytes = (body_tokens * 4) as usize;
    if bytes <= max_bytes_per_result {
        bytes
    } else {
        max_bytes_per_result
    }
}

impl Section {
    /// The head line, and below it what is shown of the lines.
    pub fn with_body(self, body: &str) -> (res: String)
        ensures
            res@ == self.head@ + body@,
    {
        self.head.concat(body)
    }
}

/// Whether a text has no more bytes than it may have. One that has is cut, and
/// the footer below it says so.
pub fn fits(text: &str, max_bytes: usize) -> (res: bool)
    ensures
        res == (encode_utf8(text@).len() <= max_bytes),
{
    text.as_bytes().len() <= max_bytes
}

/// What stands below a text that was cut.
pub fn cut_footer() -> (res: &'static str)
    ensures
        res@ == "[truncated to budget]\n"@,
{
    "[truncated to budget]\n"
}

/// The first bytes of a text, `budget` of them at most; none where they end in
/// the middle of a character.
pub fn first_bytes(text: &str, budget: usize) -> (res: Option<String>)
    ensures
        ({
            let bytes = encode_utf8(text@);
            let part = bytes.take(lesser(bytes.len() as int, budget as int));
            match res {
                Some(s) => valid_utf8(part) && s@ == decode_utf8(part),
                None => !valid_utf8(part),
            }
        }),
{
    let bytes = text.as_bytes();
    let n: usize = if bytes.len() <= budget {
        bytes.len()
    } else {
        budget
    };
    let part = vstd::slice::slice_subrange(bytes, 0, n);
    assert(part@ =~= encode_utf8(text@).take(
        lesser(encode_utf8(text@).len() as int, budget as int),
    ));
    text_strict(part)
}

/// The lines of an entry that spans a line hold that line.
pub proof fn law_section_holds_its_line(text: Seq<Seq<char>>, e: EntryView, line: u32)
    requires
        spans(e, line),
        1 <= line <= text.len(),
    ensures
        lines_from_to(text, e.start_line, e.end_line).contains(text[line - 1]),
{
    let part = lines_from_to(text, e.start_line, e.end_line);
    assert(part[line - 1 - line_index(e.start_line)] == text[line - 1]);
}

/// The lines of a section are those from its first to its last, both included, as
/// far as the text goes.
pub proof fn law_lines_from_to(text: Seq<Seq<char>>, start_line: u32, end_line: u32, i: int)
    requires
        1 <= start_line,
    ensures
        start_line <= end_line && start_line <= text.len() ==> lines_from_to(
            text,
            start_line,
            end_line,
        ).len() == (if end_line <= text.len() {
            end_line as int
        } else {
            text.len() as int
        }) - start_line + 1,
        start_line > end_line || start_line > text.len() ==> lines_from_to(
            text,
            start_line,
            end_line,
        ).len() == 0,
        0 <= i < lines_from_to(text, start_line, end_line).len() ==> lines_from_to(
            text,
            start_line,
            end_line,
        )[i] == text[start_line - 1 + i],
        lines_from_to(text, 0, end_line) == lines_from_to(text, 1, end_line),
{
}

/// Lines with their ends: each line is followed by a newline.
pub proof fn law_lines_with_ends(text: Seq<Seq<char>>, line: Seq<char>)
    ensures
        with_ends(seq![]) == Seq::<char>::empty(),
        with_ends(text.push(line)) == with_ends(text) + line + seq!['\n'],
        joined_lines(seq![]) == Seq::<char>::empty(),
        joined_lines(seq![line]) == line,
        text.len() > 0 ==> joined_lines(text.push(line)) == joined_lines(text) + seq!['\n'] + line,
        text.len() > 0 ==> with_ends(text) == joined_lines(text) + seq!['\n'],
    decreases text.len(),
{
    assert(text.push(line).drop_last() =~= text);
    assert(with_ends(text) + line.push('\n') =~= with_ends(text) + line + seq!['\n']);
    assert(joined_lines(text).push('\n') + line =~= joined_lines(text) + seq!['\n'] + line);
    if text.len() == 1 {
        reveal_with_fuel(with_ends, 2);
        assert(text.drop_last() =~= seq![]);
        assert(with_ends(text) =~= text[0] + seq!['\n']);
    } else if text.len() > 1 {
        law_lines_with_ends(text.drop_last(), text.last());
        assert(text.drop_last().push(text.last()) =~= text);
    }
}

/// Cutting lines that were joined gives them back.
pub proof fn law_joined_lines_are_cut_again(text: Seq<Seq<char>>)
    requires
        forall|i: int|
            0 <= i < text.len() ==> !(#[trigger] text[i]).contains('\n') && (text[i].len() == 0
                || text[i].last() != '\r'),
    ensures
        lines(with_ends(text)) == text,
    decreases text.len(),
{
    if text.len() == 0 {
        law_lines(seq![], seq![]);
    } else {
        let rest = text.skip(1);
        assert forall|i: int| 0 <= i < rest.len() implies !(#[trigger] rest[i]).contains('\n') && (
        rest[i].len() == 0 || rest[i].last() != '\r') by {
            assert(rest[i] == text[i + 1]);
        }
        law_joined_lines_are_cut_again(rest);
        lemma_first_with_end(text);
        assert(!text[0].contains('\n'));
        law_lines(text[0], with_ends(rest));
        assert(seq![text[0]] + rest =~= text);
    }
}

proof fn lemma_first_with_end(text: Seq<Seq<char>>)
    requires
        text.len() > 0,
    ensures
        with_ends(text) == text[0].push('\n') + with_ends(text.skip(1)),
    decreases text.len(),
{
    let front = text.drop_last();
    if front.len() == 0 {
        reveal_with_fuel(with_ends, 2);
        assert(with_ends(text) =~= text[0].push('\n') + with_ends(text.skip(1)));
    } else {
        lemma_first_with_end(front);
        assert(front[0] == text[0]);
        assert(text.skip(1).drop_last() =~= front.skip(1));
        assert(text.skip(1).last() == text.last());
        assert(with_ends(text) =~= text[0].push('\n') + with_ends(text.skip(1)));
    }
}

/// An excerpt is made of the first lines of a section, no more than asked for.
pub proof fn law_excerpt_is_the_front(
    content: String,
    start_line: u32,
    end_line: u32,
    max_lines: usize,
    n: int,
)
    requires
        1 <= start_line,
        0 <= n <= max_lines,
        lines_from_to(lines(content@), start_line, end_line).len() >= n,
        n == max_lines || lines_from_to(lines(content@), start_line, end_line).len() == n,
    ensures
        excerpt_of(Some(content), start_line, end_line, max_lines) == joined_lines(
            lines(content@).subrange(
                if n == 0 {
                    0
                } else {
                    start_line - 1
                },
                if n == 0 {
                    0
                } else {
                    start_line - 1 + n
                },
            ),
        ),
        excerpt_of(None, start_line, end_line, max_lines).len() == 0,
{
    let part = lines_from_to(lines(content@), start_line, end_line);
    let shown = part.take(lesser(part.len() as int, max_lines as int));
    if n == 0 {
        assert(shown =~= lines(content@).subrange(0, 0));
    } else {
        assert(shown =~= lines(content@).subrange(start_line - 1, start_line - 1 + n));
    }
}

/// What stands above a section: its kind in lower case, its name and its lines. Where
/// no section holds the line, that is said of the line.
pub proof fn law_section_heads(e: EntryView, line: u32)
    ensures
        section_head(e) == "// "@ + lowercased(e.kind) + " "@ + e.name + " (lines "@ + decimal(
            e.start_line as nat,
        ) + "-"@ + decimal(e.end_line as nat) + ")\n"@,
        no_section(line) == "no structural section contains line "@ + decimal(line as nat),
{
}

} // verus!
