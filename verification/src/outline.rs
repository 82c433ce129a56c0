//! A rough outline of a source file, from keywords and braces alone.

use vstd::prelude::*;

use crate::callees::alphanumeric;
use crate::callees::word_char;
use crate::text::begins_with;
use crate::text::chars_of;
use crate::text::contains;
use crate::text::is_whitespace;
use crate::text::lines;
use crate::text::occurs;
use crate::text::occurs_at;
use crate::text::split_lines;
use crate::text::stands_at;
use crate::text::strip_prefix;
use crate::text::text_between;
use crate::text::texts;
use crate::text::trim;
use crate::text::trim_front;
use crate::text::trim_start;
use crate::text::trimmed;
use crate::text::whitespace;

verus! {

/// A definition in a source file.
#[derive(Debug)]
pub struct SymEntry {
    /// What kind of definition it is.
    pub kind: String,
    /// What it defines.
    pub name: String,
    /// Its first line, from one.
    pub start_line: usize,
    /// Its last line.
    pub end_line: usize,
}

/// What an entry says.
#[verifier::ext_equal]
pub struct SymView {
    pub kind: Seq<char>,
    pub name: Seq<char>,
    pub start_line: int,
    pub end_line: int,
}

impl View for SymEntry {
    type V = SymView;

    open spec fn view(&self) -> SymView {
        SymView {
            kind: self.kind@,
            name: self.name@,
            start_line: self.start_line as int,
            end_line: self.end_line as int,
        }
    }
}

/// What each entry of a list says.
pub open spec fn entry_views(v: Seq<SymEntry>) -> Seq<SymView> {
    v.map_values(|e: SymEntry| e@)
}

/// The character ends a name.
pub open spec fn ends_name(c: char) -> bool {
    c == '(' || c == '<' || c == ':' || c == '{' || whitespace(c)
}

/// How far the name at the beginning of `s` goes.
pub open spec fn name_end(s: Seq<char>) -> nat
    decreases s.len(),
{
    if s.len() == 0 || ends_name(s[0]) {
        0
    } else {
        1 + name_end(s.skip(1))
    }
}

/// The name at the beginning of `rest`, if there is one.
pub open spec fn leading_name(rest: Seq<char>) -> Option<Seq<char>> {
    if name_end(rest) == 0 {
        None
    } else {
        Some(rest.take(name_end(rest) as int))
    }
}

/// The words that may stand before a keyword.
pub open spec fn modifiers() -> Seq<Seq<char>> {
    seq!["pub "@, "pub(crate) "@, "pub(super) "@, "export "@]
}

/// `line` is `modifier` and then `keyword` and more.
pub open spec fn modified(line: Seq<char>, modifier: Seq<char>, keyword: Seq<char>) -> bool {
    begins_with(line, modifier) && begins_with(line.skip(modifier.len() as int), keyword)
}

/// The name that `line` gives behind `keyword` and one of `before`.
pub open spec fn name_behind(line: Seq<char>, keyword: Seq<char>, before: Seq<Seq<char>>) -> Option<
    Seq<char>,
>
    decreases before.len(),
{
    if before.len() == 0 {
        None
    } else if modified(line, before[0], keyword) {
        leading_name(line.skip((before[0].len() + keyword.len()) as int))
    } else {
        name_behind(line, keyword, before.skip(1))
    }
}

/// The name that `line` defines with `keyword`, which may have a modifier
/// before it.
pub open spec fn name_after(line: Seq<char>, keyword: Seq<char>) -> Option<Seq<char>> {
    if begins_with(line, keyword) {
        leading_name(line.skip(keyword.len() as int))
    } else {
        name_behind(line, keyword, modifiers())
    }
}

/// The name at the beginning of `rest`, if there is one.
fn name_at_start(rest: &str) -> (res: Option<String>)
    ensures
        match res {
            Some(name) => leading_name(rest@) == Some(name@),
            None => leading_name(rest@) is None,
        },
{
    let chars = chars_of(rest);
    let mut i: usize = 0;
    assert(chars@.skip(0) =~= rest@);
    while i < chars.len()
        invariant
            i <= chars@.len(),
            name_end(rest@) == i + name_end(chars@.skip(i as int)),
        ensures
            i <= chars@.len(),
            name_end(rest@) == i,
        decreases chars@.len() - i,
    {
        let c = chars[i];
        assert(chars@.skip(i as int)[0] == c);
        assert(chars@.skip(i as int).skip(1) =~= chars@.skip(i + 1));
        if c == '(' || c == '<' || c == ':' || c == '{' || is_whitespace(c) {
            break;
        }
        i = i + 1;
    }
    if i == 0 {
        return None;
    }
    assert(chars@.subrange(0, i as int) =~= rest@.take(i as int));
    Some(text_between(chars.as_slice(), 0, i))
}

/// The name that `line` defines with `kw`, which may have a modifier before
/// it.
pub fn parse_after_keyword(line: &str, kw: &str) -> (res: Option<String>)
    ensures
        match res {
            Some(name) => name_after(line@, kw@) == Some(name@),
            None => name_after(line@, kw@) is None,
        },
{
    match strip_prefix(line, kw) {
        Some(rest) => {
            return name_at_start(rest.as_str());
        },
        None => {},
    }
    let before: [&str; 4] = ["pub ", "pub(crate) ", "pub(super) ", "export "];
    let ghost all = modifiers();
    assert(before@.len() == all.len());
    assert(forall|k: int| 0 <= k < 4 ==> (#[trigger] before@[k])@ == all[k]);
    let mut i: usize = 0;
    assert(all.skip(0) =~= all);
    while i < 4
        invariant
            i <= 4,
            before@.len() == 4,
            all == modifiers(),
            all.len() == 4,
            forall|k: int| 0 <= k < 4 ==> (#[trigger] before@[k])@ == all[k],
            !begins_with(line@, kw@),
            name_behind(line@, kw@, all) == name_behind(line@, kw@, all.skip(i as int)),
        decreases 4 - i,
    {
        assert(all.skip(i as int)[0] == before@[i as int]@);
        assert(all.skip(i as int).skip(1) =~= all.skip(i + 1));
        match strip_prefix(line, before[i]) {
            Some(after) => match strip_prefix(after.as_str(), kw) {
                Some(rest) => {
                    assert(rest@ =~= line@.skip((all[i as int].len() + kw@.len()) as int));
                    return name_at_start(rest.as_str());
                },
                None => {},
            },
            None => {},
        }
        i = i + 1;
    }
    None
}

/// How often `c` stands in `s`.
pub open spec fn count_of(s: Seq<char>, c: char) -> nat
    decreases s.len(),
{
    if s.len() == 0 {
        0
    } else {
        count_of(s.drop_last(), c) + if s.last() == c {
            1nat
        } else {
            0
        }
    }
}

/// How often `c` stands in the lines.
pub open spec fn count_in(text: Seq<Seq<char>>, c: char) -> nat
    decreases text.len(),
{
    if text.len() == 0 {
        0
    } else {
        count_in(text.drop_last(), c) + count_of(text.last(), c)
    }
}

/// By the end of line `i` a brace was opened, and as many were closed.
pub open spec fn closes_at(text: Seq<Seq<char>>, i: int) -> bool {
    let seen = text.take(i + 1);
    0 < count_in(seen, '{') <= count_in(seen, '}')
}

/// The first line from `i` on where the braces close, as a number that counts
/// from `start`; behind the last line if they do not.
pub open spec fn block_end_from(text: Seq<Seq<char>>, start: int, i: int) -> int
    decreases text.len() - i,
{
    if i >= text.len() || closes_at(text, i) {
        start + i
    } else {
        block_end_from(text, start, i + 1)
    }
}

/// The last line of the block that the lines begin with; the first one has the
/// number `start`.
pub open spec fn block_end(text: Seq<Seq<char>>, start: int) -> int {
    block_end_from(text, start, 0)
}

/// How often `c` stands in `s`.
fn count_char(s: &str, c: char) -> (res: usize)
    ensures
        res == count_of(s@, c),
{
    let chars = chars_of(s);
    let mut n: usize = 0;
    let mut i: usize = 0;
    assert(chars@.take(0) =~= seq![]);
    while i < chars.len()
        invariant
            i <= chars@.len(),
            n <= i,
            n == count_of(chars@.take(i as int), c),
        decreases chars@.len() - i,
    {
        assert(chars@.take(i + 1).drop_last() =~= chars@.take(i as int));
        if chars[i] == c {
            n = n + 1;
        }
        i = i + 1;
    }
    assert(chars@.take(i as int) =~= s@);
    n
}

/// A line number, as far as one can be written down.
pub open spec fn line_limit(n: int) -> int {
    if n <= usize::MAX {
        n
    } else {
        usize::MAX as int
    }
}

/// The last line of the block that the lines begin with, or the number behind
/// the last line if the block does not end.
pub fn find_block_end(text: &[String], start: usize) -> (res: usize)
    ensures
        res == line_limit(block_end(texts(text@), start as int)),
{
    let ghost all = texts(text@);
    let mut opened: u128 = 0;
    let mut closed: u128 = 0;
    let mut i: usize = 0;
    assert(all.take(0) =~= seq![]);
    while i < text.len()
        invariant
            i <= text@.len(),
            text@.len() == text.len(),
            all == texts(text@),
            opened == count_in(all.take(i as int), '{'),
            closed == count_in(all.take(i as int), '}'),
            opened <= i * 0xffff_ffff_ffff_ffff,
            closed <= i * 0xffff_ffff_ffff_ffff,
            block_end(all, start as int) == block_end_from(all, start as int, i as int),
        decreases text@.len() - i,
    {
        let more = count_char(text[i].as_str(), '{');
        let fewer = count_char(text[i].as_str(), '}');
        assert(i * 0xffff_ffff_ffff_ffff + 0xffff_ffff_ffff_ffff == (i + 1)
            * 0xffff_ffff_ffff_ffff) by (nonlinear_arith);
        assert(i * 0xffff_ffff_ffff_ffff <= 0xffff_ffff_ffff_fffe * 0xffff_ffff_ffff_ffff)
            by (nonlinear_arith)
            requires
                i <= 0xffff_ffff_ffff_fffe,
        ;
        opened = opened + more as u128;
        closed = closed + fewer as u128;
        assert(all.take(i + 1).drop_last() =~= all.take(i as int));
        assert(all.take(i + 1).last() == text@[i as int]@);
        if opened > 0 && opened <= closed {
            return start.saturating_add(i);
        }
        i = i + 1;
    }
    start.saturating_add(i)
}

/// `find_block_end`, for a language with the same braces.
pub fn find_ts_block_end(text: &[String], start: usize) -> (res: usize)
    ensures
        res == line_limit(block_end(texts(text@), start as int)),
{
    find_block_end(text, start)
}

/// The kinds of source file that the outline tells apart.
#[derive(Debug, PartialEq, Eq, Structural, Clone, Copy)]
pub enum Style {
    Rust,
    TypeScript,
    Generic,
}

/// The kind of a source file, from the words that occur in it.
pub open spec fn style_of(text: Seq<char>) -> Style {
    if occurs(text, "fn "@) && occurs(text, "struct "@) && occurs(text, "impl "@) {
        Style::Rust
    } else if occurs(text, "function "@) || occurs(text, "const "@) || occurs(text, "import "@) {
        Style::TypeScript
    } else {
        Style::Generic
    }
}

/// The keywords of a kind of file, and what each defines.
pub open spec fn keywords(style: Style) -> Seq<(Seq<char>, Seq<char>)> {
    match style {
        Style::Rust => seq![
            ("fn "@, "function"@),
            ("struct "@, "struct"@),
            ("enum "@, "enum"@),
            ("trait "@, "trait"@),
            ("impl "@, "impl"@),
        ],
        Style::TypeScript => seq![
            ("function "@, "function"@),
            ("class "@, "class"@),
            ("interface "@, "interface"@),
        ],
        Style::Generic => seq![
            ("fn "@, "definition"@),
            ("def "@, "definition"@),
            ("func "@, "definition"@),
            ("function "@, "definition"@),
        ],
    }
}

/// The word `where` stands at position `i`, and is no part of a longer word.
pub open spec fn where_at(s: Seq<char>, i: int) -> bool {
    &&& occurs_at(s, "where"@, i)
    &&& i == 0 || !word_char(s[i - 1])
    &&& i + 5 >= s.len() || !word_char(s[i + 5])
}

/// The position of the first `{` or `where` from `i` on, or the length.
pub open spec fn type_end(s: Seq<char>, i: int) -> int
    decreases s.len() - i,
{
    if i >= s.len() || s[i] == '{' || where_at(s, i) {
        i
    } else {
        type_end(s, i + 1)
    }
}

/// How an `impl` block is called: the name behind the word, before a `{` or
/// `where`.
pub open spec fn impl_name(name: Seq<char>) -> Seq<char> {
    trimmed(name.take(type_end(name, 0)), None)
}

/// How an `impl` block with the given name behind the word is called.
fn name_of_impl(name: &str) -> (res: String)
    ensures
        res@ == impl_name(name@),
{
    let chars = chars_of(name);
    let word = chars_of("where");
    proof {
        reveal_strlit("where");
    }
    let mut i: usize = 0;
    while i < chars.len()
        invariant
            i <= chars@.len(),
            chars@ == name@,
            word@ == "where"@,
            word@.len() == 5,
            type_end(name@, 0) == type_end(name@, i as int),
        ensures
            i <= chars@.len(),
            type_end(name@, 0) == i,
        decreases chars@.len() - i,
    {
        if chars[i] == '{' {
            break;
        }
        if chars.len() - i >= 5 && stands_at(chars.as_slice(), word.as_slice(), i) {
            let alone = i == 0 || !(chars[i - 1].is_alphanumeric() || chars[i - 1] == '_');
            let ends = chars.len() - i == 5 || !(chars[i + 5].is_alphanumeric() || chars[i + 5]
                == '_');
            if alone && ends {
                break;
            }
        }
        i = i + 1;
    }
    assert(chars@.subrange(0, i as int) =~= name@.take(i as int));
    trim(text_between(chars.as_slice(), 0, i).as_str(), None)
}

/// What a line defines with the first of the keywords that it starts with: the
/// kind and the name.
pub open spec fn definition(line: Seq<char>, table: Seq<(Seq<char>, Seq<char>)>) -> Option<
    (Seq<char>, Seq<char>),
>
    decreases table.len(),
{
    if table.len() == 0 {
        None
    } else {
        match name_after(line, table[0].0) {
            Some(name) => Some(
                (
                    table[0].1,
                    if table[0].1 == "impl"@ {
                        impl_name(name)
                    } else {
                        name
                    },
                ),
            ),
            None => definition(line, table.skip(1)),
        }
    }
}

/// The last line of a definition that starts on line `i`.
pub open spec fn definition_end(style: Style, text: Seq<Seq<char>>, i: int) -> int {
    line_limit(
        if style == Style::Generic {
            i + 1 + 5
        } else {
            block_end(text.skip(i), i + 1)
        },
    )
}

/// The definitions on the first `n` lines.
pub open spec fn outline_upto(style: Style, text: Seq<Seq<char>>, n: int) -> Seq<SymView>
    decreases n,
{
    if n <= 0 {
        seq![]
    } else {
        let rest = outline_upto(style, text, n - 1);
        match definition(trim_front(text[n - 1], None), keywords(style)) {
            Some((kind, name)) => rest.push(
                SymView {
                    kind,
                    name,
                    start_line: n,
                    end_line: definition_end(style, text, n - 1),
                },
            ),
            None => rest,
        }
    }
}

/// The outline of a text.
pub open spec fn simple_outline(text: Seq<char>) -> Seq<SymView> {
    outline_upto(style_of(text), lines(text), lines(text).len() as int)
}

/// The keywords as texts.
spec fn table_view(table: Seq<(&'static str, &'static str)>) -> Seq<(Seq<char>, Seq<char>)> {
    table.map_values(|p: (&'static str, &'static str)| (p.0@, p.1@))
}

/// The keywords of a kind of file.
fn keyword_table(style: Style) -> (res: Vec<(&'static str, &'static str)>)
    ensures
        table_view(res@) == keywords(style),
{
    let res = match style {
        Style::Rust => vec![
            ("fn ", "function"),
            ("struct ", "struct"),
            ("enum ", "enum"),
            ("trait ", "trait"),
            ("impl ", "impl"),
        ],
        Style::TypeScript => vec![
            ("function ", "function"),
            ("class ", "class"),
            ("interface ", "interface"),
        ],
        Style::Generic => vec![
            ("fn ", "definition"),
            ("def ", "definition"),
            ("func ", "definition"),
            ("function ", "definition"),
        ],
    };
    assert(table_view(res@) =~= keywords(style));
    res
}

/// The kind of a source file.
fn detect_style(text: &str) -> (res: Style)
    ensures
        res == style_of(text@),
{
    if contains(text, "fn ") && contains(text, "struct ") && contains(text, "impl ") {
        Style::Rust
    } else if contains(text, "function ") || contains(text, "const ") || contains(text, "import ") {
        Style::TypeScript
    } else {
        Style::Generic
    }
}

/// What a line defines: the kind and the name.
fn find_definition(line: &str, table: &Vec<(&'static str, &'static str)>) -> (res: Option<
    (String, String),
>)
    ensures
        match res {
            Some((kind, name)) => definition(line@, table_view(table@)) == Some((kind@, name@)),
            None => definition(line@, table_view(table@)) is None,
        },
{
    let ghost all = table_view(table@);
    let mut i: usize = 0;
    assert(all.skip(0) =~= all);
    while i < table.len()
        invariant
            i <= table@.len(),
            all == table_view(table@),
            definition(line@, all) == definition(line@, all.skip(i as int)),
        decreases table@.len() - i,
    {
        let (keyword, kind) = table[i];
        assert(all.skip(i as int)[0] == (keyword@, kind@));
        assert(all.skip(i as int).skip(1) =~= all.skip(i + 1));
        match parse_after_keyword(line, keyword) {
            Some(name) => {
                if *kind == *"impl" {
                    return Some((kind.to_owned(), name_of_impl(name.as_str())));
                }
                return Some((kind.to_owned(), name));
            },
            None => {},
        }
        i = i + 1;
    }
    None
}

/// The definitions of an outline stand on lines that ascend.
proof fn lemma_outline_ascends(style: Style, text: Seq<Seq<char>>, n: int)
    ensures
        forall|i: int|
            0 <= i < outline_upto(style, text, n).len() ==> 1 <= (#[trigger] outline_upto(
                style,
                text,
                n,
            )[i]).start_line <= n,
        forall|i: int, j: int|
            0 <= i < j < outline_upto(style, text, n).len() ==> (#[trigger] outline_upto(
                style,
                text,
                n,
            )[i]).start_line < (#[trigger] outline_upto(style, text, n)[j]).start_line,
    decreases n,
{
    if n > 0 {
        lemma_outline_ascends(style, text, n - 1);
        let rest = outline_upto(style, text, n - 1);
        let all = outline_upto(style, text, n);
        assert forall|i: int| 0 <= i < all.len() implies 1 <= (#[trigger] all[i]).start_line
            <= n by {
            if i < rest.len() {
                assert(all[i] == rest[i]);
            }
        }
        assert forall|i: int, j: int| 0 <= i < j < all.len() implies (
        #[trigger] all[i]).start_line < (#[trigger] all[j]).start_line by {
            assert(all[i] == rest[i]);
            if j < rest.len() {
                assert(all[j] == rest[j]);
            }
        }
    }
}

/// The outline of a text: the definitions that its lines start with, in their
/// order. One in a file of unknown kind is taken to go on for five lines.
pub fn get_simple_outline(text: &str) -> (res: Vec<SymEntry>)
    ensures
        entry_views(res@) == simple_outline(text@),
        forall|i: int, j: int|
            0 <= i < j < res@.len() ==> (#[trigger] res@[i]).start_line < (
            #[trigger] res@[j]).start_line,
{
    let all = split_lines(text);
    let style = detect_style(text);
    let table = keyword_table(style);
    let ghost shown = lines(text@);
    let mut entries: Vec<SymEntry> = Vec::new();
    let mut i: usize = 0;
    assert(texts(all@).len() == all@.len());
    assert(entry_views(entries@) =~= seq![]);
    while i < all.len()
        invariant
            i <= all@.len(),
            texts(all@) == shown,
            table_view(table@) == keywords(style),
            entry_views(entries@) == outline_upto(style, shown, i as int),
        decreases all@.len() - i,
    {
        let line_num = i + 1;
        let line = trim_start(all[i].as_str());
        assert(shown[i as int] == texts(all@)[i as int]);
        match find_definition(line.as_str(), &table) {
            Some((kind, name)) => {
                let ghost before = entries@;
                let end_line = match style {
                    Style::Generic => line_num.saturating_add(5),
                    Style::Rust => find_block_end(
                        vstd::slice::slice_subrange(all.as_slice(), i, all.len()),
                        line_num,
                    ),
                    Style::TypeScript => find_ts_block_end(
                        vstd::slice::slice_subrange(all.as_slice(), i, all.len()),
                        line_num,
                    ),
                };
                assert(texts(all@.subrange(i as int, all@.len() as int)) =~= shown.skip(i as int));
                entries.push(SymEntry { kind, name, start_line: line_num, end_line });
                assert(entry_views(entries@) =~= entry_views(before).push(entries@.last()@));
            },
            None => {},
        }
        i = i + 1;
    }
    proof {
        lemma_outline_ascends(style, shown, shown.len() as int);
        assert forall|a: int, b: int| 0 <= a < b < entries@.len() implies (
        #[trigger] entries@[a]).start_line < (#[trigger] entries@[b]).start_line by {
            assert(entry_views(entries@)[a] == entries@[a]@);
            assert(entry_views(entries@)[b] == entries@[b]@);
        }
    }
    entries
}

proof fn lemma_begins(s: Seq<char>, prefix: Seq<char>)
    ensures
        begins_with(s, prefix) <==> prefix.len() <= s.len() && forall|k: int|
            0 <= k < prefix.len() ==> #[trigger] s[k] == prefix[k],
{
    if begins_with(s, prefix) {
        assert forall|k: int| 0 <= k < prefix.len() implies #[trigger] s[k] == prefix[k] by {
            assert(s.take(prefix.len() as int)[k] == s[k]);
        }
    }
    if prefix.len() <= s.len() && forall|k: int|
        0 <= k < prefix.len() ==> #[trigger] s[k] == prefix[k] {
        assert(s.take(prefix.len() as int) =~= prefix);
    }
}

proof fn lemma_name_of(name: Seq<char>, rest: Seq<char>)
    requires
        forall|k: int| 0 <= k < name.len() ==> !ends_name(#[trigger] name[k]),
        rest.len() == 0 || ends_name(rest[0]),
    ensures
        name_end(name + rest) == name.len(),
    decreases name.len(),
{
    let all = name + rest;
    if name.len() == 0 {
        assert(all =~= rest);
    } else {
        let tail = name.skip(1);
        assert forall|k: int| 0 <= k < tail.len() implies !ends_name(#[trigger] tail[k]) by {
            assert(tail[k] == name[k + 1]);
        }
        lemma_name_of(tail, rest);
        assert(all[0] == name[0]);
        assert(all.skip(1) =~= tail + rest);
    }
}

proof fn lemma_blanks(blank: Seq<char>, line: Seq<char>)
    requires
        forall|k: int| 0 <= k < blank.len() ==> whitespace(#[trigger] blank[k]),
        line.len() > 0,
        !whitespace(line[0]),
    ensures
        trim_front(blank + line, None) == line,
    decreases blank.len(),
{
    let all = blank + line;
    if blank.len() == 0 {
        assert(all =~= line);
    } else {
        let tail = blank.skip(1);
        assert forall|k: int| 0 <= k < tail.len() implies whitespace(#[trigger] tail[k]) by {
            assert(tail[k] == blank[k + 1]);
        }
        lemma_blanks(tail, line);
        assert(all[0] == blank[0]);
        assert(all.skip(1) =~= tail + line);
    }
}

proof fn lemma_behind_none(line: Seq<char>, keyword: Seq<char>, before: Seq<Seq<char>>)
    requires
        forall|j: int| 0 <= j < before.len() ==> !modified(line, #[trigger] before[j], keyword),
    ensures
        name_behind(line, keyword, before) is None,
    decreases before.len(),
{
    if before.len() > 0 {
        let rest = before.skip(1);
        assert forall|j: int| 0 <= j < rest.len() implies !modified(
            line,
            #[trigger] rest[j],
            keyword,
        ) by {
            assert(rest[j] == before[j + 1]);
        }
        lemma_behind_none(line, keyword, rest);
        assert(!modified(line, before[0], keyword));
    }
}

proof fn lemma_behind_some(line: Seq<char>, keyword: Seq<char>, before: Seq<Seq<char>>, i: int)
    requires
        0 <= i < before.len(),
        forall|j: int| 0 <= j < i ==> !modified(line, #[trigger] before[j], keyword),
        modified(line, before[i], keyword),
    ensures
        name_behind(line, keyword, before) == leading_name(
            line.skip((before[i].len() + keyword.len()) as int),
        ),
    decreases before.len(),
{
    if i > 0 {
        let rest = before.skip(1);
        assert forall|j: int| 0 <= j < i - 1 implies !modified(
            line,
            #[trigger] rest[j],
            keyword,
        ) by {
            assert(rest[j] == before[j + 1]);
        }
        assert(rest[i - 1] == before[i]);
        lemma_behind_some(line, keyword, rest, i - 1);
        assert(!modified(line, before[0], keyword));
    }
}

/// A word that may stand before a keyword, or nothing.
pub open spec fn is_modifier(word: Seq<char>) -> bool {
    ||| word.len() == 0
    ||| word == "pub "@
    ||| word == "pub(crate) "@
    ||| word == "pub(super) "@
    ||| word == "export "@
}

/// No modifier begins like the keyword.
spec fn unlike_modifiers(keyword: Seq<char>) -> bool {
    keyword.len() >= 2 && keyword[0] != 'p' && !(keyword[0] == 'e' && keyword[1] == 'x')
}

proof fn lemma_modifier_at(line: Seq<char>, modifier: Seq<char>, keyword: Seq<char>, j: int)
    requires
        is_modifier(modifier),
        unlike_modifiers(keyword),
        begins_with(line, modifier + keyword),
        0 <= j < modifiers().len(),
    ensures
        begins_with(line, modifiers()[j]) <==> modifier == modifiers()[j],
        modifier == modifiers()[j] ==> begins_with(line.skip(modifier.len() as int), keyword),
{
    reveal_strlit("pub ");
    reveal_strlit("pub(crate) ");
    reveal_strlit("pub(super) ");
    reveal_strlit("export ");
    let m = modifiers()[j];
    let both = modifier + keyword;
    lemma_begins(line, both);
    lemma_begins(line, m);
    if modifier.len() > 0 {
        assert(line[0] == both[0] && both[0] == modifier[0]);
        assert(line[3] == both[3] && both[3] == modifier[3]);
        if modifier != "pub "@ {
            assert(line[4] == both[4] && both[4] == modifier[4]);
        }
    } else {
        assert(line[0] == both[0] && both[0] == keyword[0]);
        assert(line[1] == both[1] && both[1] == keyword[1]);
    }
    if begins_with(line, m) {
        assert(line[0] == m[0] && line[1] == m[1] && line[3] == m[3]);
        if m != "pub "@ {
            assert(line[4] == m[4]);
        }
    }
    if modifier == m {
        assert forall|k: int| 0 <= k < m.len() implies #[trigger] line[k] == m[k] by {
            assert(both[k] == m[k]);
        }
        let after = line.skip(m.len() as int);
        lemma_begins(after, keyword);
        assert forall|k: int| 0 <= k < keyword.len() implies #[trigger] after[k] == keyword[k] by {
            assert(after[k] == line[m.len() + k]);
            assert(both[m.len() + k] == keyword[k]);
        }
    }
}

proof fn lemma_keyword_found(line: Seq<char>, modifier: Seq<char>, keyword: Seq<char>)
    requires
        is_modifier(modifier),
        unlike_modifiers(keyword),
        begins_with(line, modifier + keyword),
    ensures
        name_after(line, keyword) == leading_name(
            line.skip((modifier.len() + keyword.len()) as int),
        ),
{
    reveal_strlit("pub ");
    reveal_strlit("pub(crate) ");
    reveal_strlit("pub(super) ");
    reveal_strlit("export ");
    let both = modifier + keyword;
    lemma_begins(line, both);
    lemma_begins(line, keyword);
    if modifier.len() == 0 {
        assert(both =~= keyword);
    } else {
        assert(line[0] == both[0] && both[0] == modifier[0]);
        assert(line[1] == both[1] && both[1] == modifier[1]);
        if begins_with(line, keyword) {
            assert(line[0] == keyword[0] && line[1] == keyword[1]);
        }
        let all = modifiers();
        let i: int = if modifier == "pub "@ {
            0
        } else if modifier == "pub(crate) "@ {
            1
        } else if modifier == "pub(super) "@ {
            2
        } else {
            3
        };
        assert(all[i] == modifier);
        lemma_modifier_at(line, modifier, keyword, i);
        assert forall|j: int| 0 <= j < i implies !modified(line, #[trigger] all[j], keyword) by {
            lemma_modifier_at(line, modifier, keyword, j);
            assert(all[0] == "pub "@ && all[1] == "pub(crate) "@ && all[2] == "pub(super) "@);
            assert(all[j].len() != all[i].len() || all[j][4] != all[i][4]);
        }
        lemma_behind_some(line, keyword, all, i);
    }
}

proof fn lemma_other_keyword(
    line: Seq<char>,
    modifier: Seq<char>,
    keyword: Seq<char>,
    other: Seq<char>,
    d: int,
)
    requires
        is_modifier(modifier),
        unlike_modifiers(keyword),
        unlike_modifiers(other),
        begins_with(line, modifier + keyword),
        0 <= d < keyword.len(),
        d < other.len(),
        keyword[d] != other[d],
    ensures
        name_after(line, other) is None,
{
    reveal_strlit("pub ");
    reveal_strlit("pub(crate) ");
    reveal_strlit("pub(super) ");
    reveal_strlit("export ");
    let both = modifier + keyword;
    lemma_begins(line, both);
    lemma_begins(line, other);
    if begins_with(line, other) {
        if modifier.len() == 0 {
            assert(line[d] == both[d] && both[d] == keyword[d]);
            assert(line[d] == other[d]);
        } else {
            assert(line[0] == both[0] && both[0] == modifier[0]);
            assert(line[1] == both[1] && both[1] == modifier[1]);
            assert(line[0] == other[0] && line[1] == other[1]);
        }
    }
    let all = modifiers();
    assert forall|j: int| 0 <= j < all.len() implies !modified(line, #[trigger] all[j], other) by {
        lemma_modifier_at(line, modifier, keyword, j);
        if modified(line, all[j], other) {
            let after = line.skip(modifier.len() as int);
            lemma_begins(after, keyword);
            lemma_begins(after, other);
            assert(after[d] == keyword[d]);
            assert(after[d] == other[d]);
        }
    }
    lemma_behind_none(line, other, all);
}

proof fn lemma_definition_at(
    line: Seq<char>,
    table: Seq<(Seq<char>, Seq<char>)>,
    i: int,
    name: Seq<char>,
)
    requires
        0 <= i < table.len(),
        forall|j: int| 0 <= j < i ==> name_after(line, (#[trigger] table[j]).0) is None,
        name_after(line, table[i].0) == Some(name),
    ensures
        definition(line, table) == Some(
            (
                table[i].1,
                if table[i].1 == "impl"@ {
                    impl_name(name)
                } else {
                    name
                },
            ),
        ),
    decreases table.len(),
{
    if i > 0 {
        let rest = table.skip(1);
        assert forall|j: int| 0 <= j < i - 1 implies name_after(
            line,
            (#[trigger] rest[j]).0,
        ) is None by {
            assert(rest[j] == table[j + 1]);
        }
        assert(rest[i - 1] == table[i]);
        lemma_definition_at(line, rest, i - 1, name);
        assert(name_after(line, table[0].0) is None);
    }
}

proof fn lemma_outline_holds(style: Style, text: Seq<Seq<char>>, n: int, upto: int)
    requires
        1 <= n <= upto,
        definition(trim_front(text[n - 1], None), keywords(style)) is Some,
    ensures
        outline_upto(style, text, upto).contains(
            (SymView {
                kind: (definition(trim_front(text[n - 1], None), keywords(style))->0).0,
                name: (definition(trim_front(text[n - 1], None), keywords(style))->0).1,
                start_line: n,
                end_line: definition_end(style, text, n - 1),
            }),
        ),
    decreases upto,
{
    let rest = outline_upto(style, text, upto - 1);
    let all = outline_upto(style, text, upto);
    let e = SymView {
        kind: (definition(trim_front(text[n - 1], None), keywords(style))->0).0,
        name: (definition(trim_front(text[n - 1], None), keywords(style))->0).1,
        start_line: n,
        end_line: definition_end(style, text, n - 1),
    };
    if n == upto {
        assert(all[rest.len() as int] == e);
    } else {
        lemma_outline_holds(style, text, n, upto - 1);
        let k = rest.index_of(e);
        assert(all[k] == e);
    }
}

/// A line that defines something with a keyword: white space, perhaps a modifier,
/// the keyword, the name, and then the end of the line or a character that ends
/// the name.
pub open spec fn defines(line: Seq<char>, keyword: Seq<char>, name: Seq<char>) -> bool {
    exists|blank: Seq<char>, modifier: Seq<char>, rest: Seq<char>| #[trigger]
        is_defined_so(line, blank, modifier, keyword, name, rest)
}

/// The line is made of these parts.
pub open spec fn is_defined_so(
    line: Seq<char>,
    blank: Seq<char>,
    modifier: Seq<char>,
    keyword: Seq<char>,
    name: Seq<char>,
    rest: Seq<char>,
) -> bool {
    &&& line == blank + (modifier + keyword + (name + rest))
    &&& forall|k: int| 0 <= k < blank.len() ==> whitespace(#[trigger] blank[k])
    &&& modifier.len() == 0 || modifier == "pub "@ || modifier == "pub(crate) "@ || modifier
        == "pub(super) "@ || modifier == "export "@
    &&& name.len() > 0
    &&& forall|k: int|
        0 <= k < name.len() ==> !("(<:{"@.contains(#[trigger] name[k]) || whitespace(name[k]))
    &&& rest.len() == 0 || "(<:{"@.contains(rest[0]) || whitespace(rest[0])
}

proof fn lemma_name_enders(c: char)
    ensures
        ends_name(c) <==> "(<:{"@.contains(c) || whitespace(c),
{
    reveal_strlit("(<:{");
    let all = "(<:{"@;
    assert(all[0] == '(' && all[1] == '<' && all[2] == ':' && all[3] == '{' && all.len() == 4);
    if all.contains(c) {
        assert(all[all.index_of(c)] == c);
    }
}

/// The keyword at `i` of a table defines the name, and no other one does.
proof fn lemma_defines(style: Style, i: int, line: Seq<char>, name: Seq<char>)
    requires
        0 <= i < keywords(style).len(),
        defines(line, keywords(style)[i].0, name),
    ensures
        definition(trim_front(line, None), keywords(style)) == Some(
            (
                keywords(style)[i].1,
                if keywords(style)[i].1 == "impl"@ {
                    impl_name(name)
                } else {
                    name
                },
            ),
        ),
{
    reveal_strlit("pub ");
    reveal_strlit("pub(crate) ");
    reveal_strlit("pub(super) ");
    reveal_strlit("export ");
    reveal_strlit("fn ");
    reveal_strlit("struct ");
    reveal_strlit("enum ");
    reveal_strlit("trait ");
    reveal_strlit("impl ");
    reveal_strlit("function ");
    reveal_strlit("class ");
    reveal_strlit("interface ");
    reveal_strlit("def ");
    reveal_strlit("func ");
    let table = keywords(style);
    let keyword = table[i].0;
    let (blank, modifier, rest) = choose|
        blank: Seq<char>,
        modifier: Seq<char>,
        rest: Seq<char>,
    | #[trigger]
        is_defined_so(line, blank, modifier, keyword, name, rest);
    let bare = modifier + keyword + (name + rest);
    let both = modifier + keyword;
    assert(unlike_modifiers(keyword));
    assert(bare[0] == if modifier.len() > 0 {
        modifier[0]
    } else {
        keyword[0]
    });
    lemma_blanks(blank, bare);
    assert(bare.take(both.len() as int) =~= both);
    assert(bare.skip((modifier.len() + keyword.len()) as int) =~= name + rest);
    assert forall|k: int| 0 <= k < name.len() implies !ends_name(#[trigger] name[k]) by {
        lemma_name_enders(name[k]);
    }
    if rest.len() > 0 {
        lemma_name_enders(rest[0]);
    }
    lemma_name_of(name, rest);
    assert((name + rest).take(name.len() as int) =~= name);
    lemma_keyword_found(bare, modifier, keyword);
    assert forall|j: int| 0 <= j < i implies name_after(bare, (#[trigger] table[j]).0) is None by {
        let other = table[j].0;
        let d: int = if style == Style::Generic && i == 3 && j == 2 {
            4
        } else if style == Style::Generic && i >= 2 && j == 0 {
            1
        } else {
            0
        };
        assert(unlike_modifiers(other));
        lemma_other_keyword(bare, modifier, keyword, other, d);
    }
    lemma_definition_at(bare, table, i, name);
}

/// Among the entries is one of that kind with that name that starts on line `n`.
pub open spec fn is_outlined(
    outline: Seq<SymView>,
    kind: Seq<char>,
    name: Seq<char>,
    n: int,
) -> bool {
    exists|i: int|
        0 <= i < outline.len() && (#[trigger] outline[i]).kind == kind && outline[i].name == name
            && outline[i].start_line == n
}

proof fn lemma_outlined(text: Seq<char>, n: int, i: int, name: Seq<char>)
    requires
        1 <= n <= lines(text).len(),
        0 <= i < keywords(style_of(text)).len(),
        defines(lines(text)[n - 1], keywords(style_of(text))[i].0, name),
    ensures
        is_outlined(
            simple_outline(text),
            keywords(style_of(text))[i].1,
            if keywords(style_of(text))[i].1 == "impl"@ {
                impl_name(name)
            } else {
                name
            },
            n,
        ),
{
    let style = style_of(text);
    lemma_defines(style, i, lines(text)[n - 1], name);
    lemma_outline_holds(style, lines(text), n, lines(text).len() as int);
    let all = simple_outline(text);
    let e = SymView {
        kind: (definition(trim_front(lines(text)[n - 1], None), keywords(style))->0).0,
        name: (definition(trim_front(lines(text)[n - 1], None), keywords(style))->0).1,
        start_line: n,
        end_line: definition_end(style, lines(text), n - 1),
    };
    assert(all[all.index_of(e)] == e);
}

/// In a text that holds `fn `, `struct ` and `impl `, each line that begins with
/// one of `fn`, `struct`, `enum`, `trait` and `impl`, perhaps behind a modifier,
/// and a name gives an entry of the kind of that word, with that name, on that
/// line. The name of an `impl` is cut before a `where`.
pub proof fn law_rust_definitions_are_outlined(text: Seq<char>, n: int, name: Seq<char>)
    requires
        occurs(text, "fn "@),
        occurs(text, "struct "@),
        occurs(text, "impl "@),
        1 <= n <= lines(text).len(),
    ensures
        defines(lines(text)[n - 1], "fn "@, name) ==> is_outlined(
            simple_outline(text),
            "function"@,
            name,
            n,
        ),
        defines(lines(text)[n - 1], "struct "@, name) ==> is_outlined(
            simple_outline(text),
            "struct"@,
            name,
            n,
        ),
        defines(lines(text)[n - 1], "enum "@, name) ==> is_outlined(
            simple_outline(text),
            "enum"@,
            name,
            n,
        ),
        defines(lines(text)[n - 1], "trait "@, name) ==> is_outlined(
            simple_outline(text),
            "trait"@,
            name,
            n,
        ),
        defines(lines(text)[n - 1], "impl "@, name) && (forall|k: int|
            0 <= k < name.len() ==> alphanumeric(#[trigger] name[k]) || name[k] == '_') && name
            != "where"@ ==> is_outlined(simple_outline(text), "impl"@, name, n),
{
    reveal_strlit("function");
    reveal_strlit("struct");
    reveal_strlit("enum");
    reveal_strlit("trait");
    reveal_strlit("impl");
    assert("impl"@[0] == 'i');
    assert("function"@[0] == 'f' && "struct"@[0] == 's' && "enum"@[0] == 'e' && "trait"@[0] == 't');
    let line = lines(text)[n - 1];
    let table = keywords(Style::Rust);
    if defines(line, "fn "@, name) {
        assert(table[0].0 == "fn "@);
        lemma_outlined(text, n, 0, name);
    }
    if defines(line, "struct "@, name) {
        assert(table[1].0 == "struct "@);
        lemma_outlined(text, n, 1, name);
    }
    if defines(line, "enum "@, name) {
        assert(table[2].0 == "enum "@);
        lemma_outlined(text, n, 2, name);
    }
    if defines(line, "trait "@, name) {
        assert(table[3].0 == "trait "@);
        lemma_outlined(text, n, 3, name);
    }
    if defines(line, "impl "@, name) && (forall|k: int|
        0 <= k < name.len() ==> alphanumeric(#[trigger] name[k]) || name[k] == '_') && name
        != "where"@ {
        assert(table[4].0 == "impl "@);
        lemma_outlined(text, n, 4, name);
        lemma_plain_impl(line, name);
    }
}

proof fn lemma_no_where(name: Seq<char>, i: int)
    requires
        0 <= i <= name.len(),
        forall|k: int| 0 <= k < name.len() ==> word_char(#[trigger] name[k]) && name[k] != '{',
        name != "where"@,
    ensures
        type_end(name, i) == name.len(),
    decreases name.len() - i,
{
    if i < name.len() {
        reveal_strlit("where");
        if where_at(name, i) {
            assert(i == 0) by {
                if i > 0 {
                    assert(word_char(name[i - 1]));
                }
            }
            assert(name.len() == 5) by {
                if name.len() > 5 {
                    assert(word_char(name[i + 5]));
                }
            }
            assert(name.subrange(0, 5) =~= name);
        }
        lemma_no_where(name, i + 1);
    }
}

proof fn lemma_plain_impl(line: Seq<char>, name: Seq<char>)
    requires
        defines(line, "impl "@, name),
        forall|k: int| 0 <= k < name.len() ==> alphanumeric(#[trigger] name[k]) || name[k] == '_',
        name != "where"@,
    ensures
        impl_name(name) == name,
{
    let (blank, modifier, rest) = choose|
        blank: Seq<char>,
        modifier: Seq<char>,
        rest: Seq<char>,
    | #[trigger]
        is_defined_so(line, blank, modifier, "impl "@, name, rest);
    assert forall|k: int| 0 <= k < name.len() implies word_char(#[trigger] name[k]) && name[k]
        != '{' by {
        lemma_name_enders(name[k]);
    }
    lemma_no_where(name, 0);
    assert(name.take(name.len() as int) =~= name);
    assert(!whitespace(name[0]) && !whitespace(name[name.len() - 1]));
}

/// In a text that is not taken for Rust but holds `function `, `const ` or
/// `import `, each line that begins with `function`, `class` or `interface`,
/// perhaps behind a modifier, and a name gives an entry of that kind.
pub proof fn law_script_definitions_are_outlined(text: Seq<char>, n: int, name: Seq<char>)
    requires
        !(occurs(text, "fn "@) && occurs(text, "struct "@) && occurs(text, "impl "@)),
        occurs(text, "function "@) || occurs(text, "const "@) || occurs(text, "import "@),
        1 <= n <= lines(text).len(),
    ensures
        defines(lines(text)[n - 1], "function "@, name) ==> is_outlined(
            simple_outline(text),
            "function"@,
            name,
            n,
        ),
        defines(lines(text)[n - 1], "class "@, name) ==> is_outlined(
            simple_outline(text),
            "class"@,
            name,
            n,
        ),
        defines(lines(text)[n - 1], "interface "@, name) ==> is_outlined(
            simple_outline(text),
            "interface"@,
            name,
            n,
        ),
{
    reveal_strlit("function");
    reveal_strlit("class");
    reveal_strlit("interface");
    reveal_strlit("impl");
    assert("impl"@.len() == 4);
    assert("function"@.len() == 8 && "class"@.len() == 5 && "interface"@.len() == 9);
    let line = lines(text)[n - 1];
    let table = keywords(Style::TypeScript);
    if defines(line, "function "@, name) {
        assert(table[0].0 == "function "@);
        lemma_outlined(text, n, 0, name);
    }
    if defines(line, "class "@, name) {
        assert(table[1].0 == "class "@);
        lemma_outlined(text, n, 1, name);
    }
    if defines(line, "interface "@, name) {
        assert(table[2].0 == "interface "@);
        lemma_outlined(text, n, 2, name);
    }
}

/// In any other text, each line that begins with `fn`, `def`, `func` or
/// `function`, perhaps behind a modifier, and a name gives a definition with that
/// name.
pub proof fn law_other_definitions_are_outlined(text: Seq<char>, n: int, name: Seq<char>)
    requires
        !(occurs(text, "fn "@) && occurs(text, "struct "@) && occurs(text, "impl "@)),
        !(occurs(text, "function "@) || occurs(text, "const "@) || occurs(text, "import "@)),
        1 <= n <= lines(text).len(),
        defines(lines(text)[n - 1], "fn "@, name) || defines(lines(text)[n - 1], "def "@, name)
            || defines(lines(text)[n - 1], "func "@, name) || defines(
            lines(text)[n - 1],
            "function "@,
            name,
        ),
    ensures
        is_outlined(simple_outline(text), "definition"@, name, n),
{
    reveal_strlit("definition");
    reveal_strlit("impl");
    assert("impl"@.len() == 4 && "definition"@.len() == 10);
    let line = lines(text)[n - 1];
    let table = keywords(Style::Generic);
    if defines(line, "fn "@, name) {
        assert(table[0].0 == "fn "@);
        lemma_outlined(text, n, 0, name);
    } else if defines(line, "def "@, name) {
        assert(table[1].0 == "def "@);
        lemma_outlined(text, n, 1, name);
    } else if defines(line, "func "@, name) {
        assert(table[2].0 == "func "@);
        lemma_outlined(text, n, 2, name);
    } else {
        assert(table[3].0 == "function "@);
        lemma_outlined(text, n, 3, name);
    }
}

/// The line begins with the keyword, behind white space and perhaps a modifier.
pub open spec fn opens_with(line: Seq<char>, keyword: Seq<char>) -> bool {
    let bare = trim_front(line, None);
    ||| begins_with(bare, keyword)
    ||| begins_with(bare, "pub "@) && begins_with(bare.skip("pub "@.len() as int), keyword)
    ||| begins_with(bare, "pub(crate) "@) && begins_with(
        bare.skip("pub(crate) "@.len() as int),
        keyword,
    )
    ||| begins_with(bare, "pub(super) "@) && begins_with(
        bare.skip("pub(super) "@.len() as int),
        keyword,
    )
    ||| begins_with(bare, "export "@) && begins_with(bare.skip("export "@.len() as int), keyword)
}

proof fn lemma_behind_is_modified(line: Seq<char>, keyword: Seq<char>, before: Seq<Seq<char>>)
    requires
        name_behind(line, keyword, before) is Some,
    ensures
        exists|j: int| 0 <= j < before.len() && modified(line, #[trigger] before[j], keyword),
    decreases before.len(),
{
    if !modified(line, before[0], keyword) {
        let rest = before.skip(1);
        lemma_behind_is_modified(line, keyword, rest);
        let j = choose|j: int| 0 <= j < rest.len() && modified(line, #[trigger] rest[j], keyword);
        assert(rest[j] == before[j + 1]);
    }
}

proof fn lemma_definition_opens(line: Seq<char>, table: Seq<(Seq<char>, Seq<char>)>)
    requires
        definition(trim_front(line, None), table) is Some,
    ensures
        exists|j: int|
            0 <= j < table.len() && opens_with(line, (#[trigger] table[j]).0) && table[j].1 == (
            definition(trim_front(line, None), table)->0).0,
    decreases table.len(),
{
    let bare = trim_front(line, None);
    if name_after(bare, table[0].0) is Some {
        if !begins_with(bare, table[0].0) {
            let all = modifiers();
            lemma_behind_is_modified(bare, table[0].0, all);
            let j = choose|j: int|
                0 <= j < all.len() && modified(bare, #[trigger] all[j], table[0].0);
            assert(all[0] == "pub "@ && all[1] == "pub(crate) "@ && all[2] == "pub(super) "@
                && all[3] == "export "@);
        }
        assert(opens_with(line, table[0].0));
    } else {
        let rest = table.skip(1);
        lemma_definition_opens(line, rest);
        let j = choose|j: int|
            0 <= j < rest.len() && opens_with(line, (#[trigger] rest[j]).0) && rest[j].1 == (
            definition(bare, rest)->0).0;
        assert(rest[j] == table[j + 1]);
    }
}

proof fn lemma_entry_of_line(style: Style, text: Seq<Seq<char>>, upto: int, i: int)
    requires
        0 <= i < outline_upto(style, text, upto).len(),
        upto <= text.len(),
    ensures
        ({
            let e = outline_upto(style, text, upto)[i];
            &&& 1 <= e.start_line <= upto
            &&& e.end_line == definition_end(style, text, e.start_line - 1)
            &&& exists|j: int|
                0 <= j < keywords(style).len() && opens_with(
                    text[e.start_line - 1],
                    (#[trigger] keywords(style)[j]).0,
                ) && keywords(style)[j].1 == e.kind
        }),
    decreases upto,
{
    let rest = outline_upto(style, text, upto - 1);
    if i < rest.len() {
        lemma_entry_of_line(style, text, upto - 1, i);
    } else {
        lemma_definition_opens(text[upto - 1], keywords(style));
    }
}

/// Nothing but such a line gives an entry: each entry stands for a line of the
/// text that begins with the word of its kind, perhaps behind a modifier.
pub proof fn law_entries_are_definitions(text: Seq<char>, i: int)
    requires
        0 <= i < simple_outline(text).len(),
    ensures
        ({
            let e = simple_outline(text)[i];
            let rust = occurs(text, "fn "@) && occurs(text, "struct "@) && occurs(text, "impl "@);
            let script = !rust && (occurs(text, "function "@) || occurs(text, "const "@) || occurs(
                text,
                "import "@,
            ));
            let line = lines(text)[e.start_line - 1];
            &&& 1 <= e.start_line <= lines(text).len()
            &&& rust ==> {
                ||| e.kind == "function"@ && opens_with(line, "fn "@)
                ||| e.kind == "struct"@ && opens_with(line, "struct "@)
                ||| e.kind == "enum"@ && opens_with(line, "enum "@)
                ||| e.kind == "trait"@ && opens_with(line, "trait "@)
                ||| e.kind == "impl"@ && opens_with(line, "impl "@)
            }
            &&& script ==> {
                ||| e.kind == "function"@ && opens_with(line, "function "@)
                ||| e.kind == "class"@ && opens_with(line, "class "@)
                ||| e.kind == "interface"@ && opens_with(line, "interface "@)
            }
            &&& !rust && !script ==> e.kind == "definition"@ && {
                ||| opens_with(line, "fn "@)
                ||| opens_with(line, "def "@)
                ||| opens_with(line, "func "@)
                ||| opens_with(line, "function "@)
            }
        }),
{
    lemma_entry_of_line(style_of(text), lines(text), lines(text).len() as int, i);
}

proof fn lemma_block_end(text: Seq<Seq<char>>, start: int, i: int)
    requires
        0 <= i <= text.len(),
    ensures
        start + i <= block_end_from(text, start, i) <= start + text.len(),
        block_end_from(text, start, i) < start + text.len() ==> closes_at(
            text,
            block_end_from(text, start, i) - start,
        ),
        forall|k: int| i <= k < block_end_from(text, start, i) - start ==> !#[trigger] closes_at(
            text,
            k,
        ),
    decreases text.len() - i,
{
    if i < text.len() && !closes_at(text, i) {
        lemma_block_end(text, start, i + 1);
    }
}

/// A definition in a text with braces goes on to the first line by whose end, from
/// its own first line on, a brace was opened and no fewer were closed than
/// opened. Where there is no such line it goes on behind the last one. Any other
/// definition goes on for five lines.
pub proof fn law_definitions_end(text: Seq<char>, i: int)
    requires
        0 <= i < simple_outline(text).len(),
        lines(text).len() + 6 <= usize::MAX,
    ensures
        ({
            let e = simple_outline(text)[i];
            let body = lines(text).skip(e.start_line - 1);
            if occurs(text, "fn "@) && occurs(text, "struct "@) && occurs(text, "impl "@) || occurs(
                text,
                "function "@,
            ) || occurs(text, "const "@) || occurs(text, "import "@) {
                let n = e.end_line - e.start_line + 1;
                &&& 1 <= n <= body.len() + 1
                &&& n <= body.len() ==> 0 < count_in(body.take(n), '{') <= count_in(
                    body.take(n),
                    '}',
                )
                &&& forall|k: int|
                    1 <= k < n ==> !(0 < count_in(#[trigger] body.take(k), '{') <= count_in(
                        body.take(k),
                        '}',
                    ))
            } else {
                e.end_line == e.start_line + 5
            }
        }),
{
    let style = style_of(text);
    let e = simple_outline(text)[i];
    lemma_entry_of_line(style, lines(text), lines(text).len() as int, i);
    let body = lines(text).skip(e.start_line - 1);
    lemma_block_end(body, e.start_line, 0);
    if style != Style::Generic {
        let n = e.end_line - e.start_line + 1;
        assert forall|k: int| 1 <= k < n implies !(0 < count_in(#[trigger] body.take(k), '{')
            <= count_in(body.take(k), '}')) by {
            assert(!closes_at(body, k - 1));
        }
        if n <= body.len() {
            assert(closes_at(body, n - 1));
        }
    }
}

/// The count of a character in lines grows line by line, and in a line character
/// by character.
pub proof fn law_counts(text: Seq<Seq<char>>, line: Seq<char>, d: char, c: char)
    ensures
        count_in(seq![], c) == 0,
        count_in(text.push(line), c) == count_in(text, c) + count_of(line, c),
        count_of(seq![], c) == 0,
        count_of(line.push(d), c) == count_of(line, c) + (if d == c {
            1int
        } else {
            0
        }),
{
    assert(text.push(line).drop_last() =~= text);
    assert(line.push(d).drop_last() =~= line);
}

/// The word `where` stands at `i`, with no letter, digit or underscore right before it
/// or right behind it.
pub open spec fn is_where(s: Seq<char>, i: int) -> bool {
    &&& occurs_at(s, "where"@, i)
    &&& i > 0 ==> !(alphanumeric(s[i - 1]) || s[i - 1] == '_')
    &&& i + 5 < s.len() ==> !(alphanumeric(s[i + 5]) || s[i + 5] == '_')
}

proof fn lemma_type_end(s: Seq<char>, i: int)
    requires
        0 <= i <= s.len(),
    ensures
        i <= type_end(s, i) <= s.len(),
        type_end(s, i) < s.len() ==> s[type_end(s, i)] == '{' || is_where(s, type_end(s, i)),
        forall|k: int| i <= k < type_end(s, i) ==> #[trigger] s[k] != '{' && !is_where(s, k),
    decreases s.len() - i,
{
    if i < s.len() && s[i] != '{' && !where_at(s, i) {
        lemma_type_end(s, i + 1);
        assert forall|k: int| i <= k < type_end(s, i) implies #[trigger] s[k] != '{' && !is_where(
            s,
            k,
        ) by {
            if k == i {
                assert(is_where(s, k) ==> where_at(s, k));
            }
        }
    }
}

/// What an `impl` block is called ends before the first `{` or the first `where`, and
/// has no white space at its ends.
pub proof fn law_impl_names(name: Seq<char>)
    ensures
        exists|n: int|
            0 <= n <= name.len() && impl_name(name) == trimmed(#[trigger] name.take(n), None) && (n
                == name.len() || name[n] == '{' || is_where(name, n)) && forall|k: int|
                0 <= k < n ==> #[trigger] name[k] != '{' && !is_where(name, k),
{
    lemma_type_end(name, 0);
    assert(impl_name(name) == trimmed(name.take(type_end(name, 0)), None));
}

} // verus!
