//! `mcp`: a server that answers tool calls, one JSON-RPC message to a line.

use vstd::prelude::*;
use vstd::string::StringExecFns;

use crate::text::chars_of;
use crate::text::decimal;
use crate::text::first_of;
use crate::text::is_digit;
use crate::text::law_splits;
use crate::text::law_trims;
use crate::text::lemma_decimal_is_parsed;
use crate::text::parse_u32;
use crate::text::parsed_u32;
use crate::text::split;
use crate::text::split_text;
use crate::text::text_between;
use crate::text::texts;
use crate::text::trim;
use crate::text::trim_back;
use crate::text::trim_front;
use crate::text::trimmable;
use crate::text::trimmed;
use crate::text::whitespace;

verus! {

/// What the `mcp` command is asked to do.
#[derive(Debug)]
pub struct Args {
    /// The token budget, if it is given.
    pub budget: Option<u64>,
    /// The workspace, if it is given.
    pub path: Option<String>,
}

impl Args {
    /// The token budget.
    pub fn token_budget(&self) -> (res: u64)
        ensures
            res == (match self.budget {
                Some(n) => n,
                None => 25000,
            }),
    {
        match self.budget {
            Some(n) => n,
            None => 25000,
        }
    }
}

/// A path as it stands in an environment variable, without white space and
/// quotes around it.
pub open spec fn unquoted(s: Seq<char>) -> Seq<char> {
    trimmed(trimmed(trimmed(s, None), Some('"')), Some('\''))
}

/// The characters between the paths of a list.
pub open spec fn path_separators() -> Seq<char> {
    seq![';', '\n', '\r']
}

/// The pieces that are paths: those that are not empty without their quotes.
pub open spec fn named_paths(pieces: Seq<Seq<char>>) -> Seq<Seq<char>>
    decreases pieces.len(),
{
    if pieces.len() == 0 {
        seq![]
    } else {
        let rest = named_paths(pieces.drop_last());
        let path = unquoted(pieces.last());
        if path.len() == 0 {
            rest
        } else {
            rest.push(path)
        }
    }
}

/// The paths of a list.
pub open spec fn workspace_paths(raw: Seq<char>) -> Seq<Seq<char>> {
    named_paths(split(raw, path_separators()))
}

/// A path without white space and quotes around it.
pub fn unquote(s: &str) -> (res: String)
    ensures
        res@ == unquoted(s@),
{
    let a = trim(s, None);
    let b = trim(a.as_str(), Some('"'));
    trim(b.as_str(), Some('\''))
}

/// The paths of a list. They stand between semicolons and line ends, never
/// between colons, which belong to drive letters.
pub fn parse_workspace_folder_paths(raw: &str) -> (res: Vec<String>)
    ensures
        texts(res@) == workspace_paths(raw@),
{
    let seps: [char; 3] = [';', '\n', '\r'];
    assert(seps@ =~= path_separators());
    let pieces = split_text(raw, seps.as_slice());
    let ghost all = texts(pieces@);
    let mut res: Vec<String> = Vec::new();
    let mut i: usize = 0;
    assert(all.take(0) =~= seq![]);
    assert(texts(res@) =~= seq![]);
    while i < pieces.len()
        invariant
            i <= pieces@.len(),
            all == texts(pieces@),
            texts(res@) == named_paths(all.take(i as int)),
        decreases pieces@.len() - i,
    {
        assert(all.take(i + 1).drop_last() =~= all.take(i as int));
        assert(all.take(i + 1).last() == pieces@[i as int]@);
        let ghost before = res@;
        let path = unquote(pieces[i].as_str());
        if !path.as_str().is_empty() {
            res.push(path);
            assert(texts(res@) =~= texts(before).push(path@));
        }
        i = i + 1;
    }
    assert(all.take(i as int) =~= all);
    res
}

/// A directory that may be there.
#[derive(Debug)]
pub struct Folder {
    /// Its path.
    pub path: String,
    /// Whether it is there.
    pub is_dir: bool,
}

/// The path of the first directory that is there.
pub open spec fn first_there(folders: Seq<Folder>) -> Option<Seq<char>>
    decreases folders.len(),
{
    if folders.len() == 0 {
        None
    } else if folders[0].is_dir {
        Some(folders[0].path@)
    } else {
        first_there(folders.skip(1))
    }
}

/// The workspace where none is given: the first listed directory that is
/// there, else the editor's, else the current one.
pub open spec fn default_root(
    folders: Seq<Folder>,
    editor: Option<Folder>,
    current: Option<String>,
) -> Seq<char> {
    match first_there(folders) {
        Some(path) => path,
        None => match editor {
            Some(f) if f.is_dir => f.path@,
            _ => match current {
                Some(path) => path@,
                None => "."@,
            },
        },
    }
}

/// The first listed directory that is there.
pub fn first_existing_workspace_folder(folders: &Vec<Folder>) -> (res: Option<String>)
    ensures
        match res {
            Some(path) => first_there(folders@) == Some(path@),
            None => first_there(folders@) is None,
        },
{
    let mut i: usize = 0;
    assert(folders@.skip(0) =~= folders@);
    while i < folders.len()
        invariant
            i <= folders@.len(),
            first_there(folders@) == first_there(folders@.skip(i as int)),
        decreases folders@.len() - i,
    {
        assert(folders@.skip(i as int)[0] == folders@[i as int]);
        assert(folders@.skip(i as int).skip(1) =~= folders@.skip(i + 1));
        if folders[i].is_dir {
            return Some(folders[i].path.clone());
        }
        i = i + 1;
    }
    None
}

/// The workspace where none is given: the first listed directory that is
/// there, else the editor's, else the current one.
pub fn resolve_default_root(
    folders: &Vec<Folder>,
    editor: &Option<Folder>,
    current: &Option<String>,
) -> (res: String)
    ensures
        res@ == default_root(folders@, *editor, *current),
{
    match first_existing_workspace_folder(folders) {
        Some(path) => {
            return path;
        },
        None => {},
    }
    match editor {
        Some(f) => {
            if f.is_dir {
                return f.path.clone();
            }
        },
        None => {},
    }
    match current {
        Some(path) => path.clone(),
        None => String::from_str("."),
    }
}

/// The position of the last `c`, or `-1` if there is none.
pub open spec fn last_index(s: Seq<char>, c: char) -> int
    decreases s.len(),
{
    if s.len() == 0 {
        -1
    } else if s.last() == c {
        s.len() - 1
    } else {
        last_index(s.drop_last(), c)
    }
}

/// The path and the line of a target: a number behind the last colon is a
/// line, unless it is zero.
pub open spec fn target_of(s: Seq<char>) -> (Seq<char>, Option<u32>) {
    let at = last_index(s, ':');
    if at < 0 {
        (s, None)
    } else {
        match parsed_u32(s.skip(at + 1)) {
            Some(n) if n > 0 => (s.take(at), Some(n)),
            _ => (s, None),
        }
    }
}

/// The path and the line of a target.
pub fn parse_target(target: &str) -> (res: (String, Option<u32>))
    ensures
        (res.0@, res.1) == target_of(target@),
{
    let chars = chars_of(target);
    let mut at: usize = chars.len();
    assert(chars@.take(at as int) =~= chars@);
    while at > 0 && chars[at - 1] != ':'
        invariant
            at <= chars@.len(),
            chars@ == target@,
            last_index(target@, ':') == last_index(chars@.take(at as int), ':'),
        decreases at,
    {
        assert(chars@.take(at as int).drop_last() =~= chars@.take(at - 1));
        at = at - 1;
    }
    if at == 0 {
        assert(chars@.take(0) =~= seq![]);
        return (target.to_owned(), None);
    }
    assert(chars@.take(at as int).last() == ':');
    let rest = text_between(chars.as_slice(), at, chars.len());
    assert(rest@ =~= target@.skip(at as int));
    match parse_u32(rest.as_str()) {
        Some(n) => {
            if n > 0 {
                let path = text_between(chars.as_slice(), 0, at - 1);
                assert(path@ =~= target@.take(at - 1));
                return (path, Some(n));
            }
        },
        None => {},
    }
    (target.to_owned(), None)
}

/// Behind what holds no `c`, the last `c` stands where it stood before.
proof fn lemma_last_index_before(s: Seq<char>, rest: Seq<char>, c: char)
    requires
        forall|i: int| 0 <= i < rest.len() ==> #[trigger] rest[i] != c,
    ensures
        last_index(s.push(c) + rest, c) == s.len(),
    decreases rest.len(),
{
    let all = s.push(c) + rest;
    if rest.len() == 0 {
        assert(all =~= s.push(c));
    } else {
        lemma_last_index_before(s, rest.drop_last(), c);
        assert(all.drop_last() =~= s.push(c) + rest.drop_last());
        assert(all.last() == rest[rest.len() - 1]);
    }
}

/// A path with a line behind a colon is a target for that path and that line,
/// whatever the path looks like.
pub proof fn law_target_round_trip(path: Seq<char>, line: u32)
    requires
        line > 0,
    ensures
        target_of(path.push(':') + decimal(line as nat)) == (path, Some(line)),
{
    let number = decimal(line as nat);
    let all = path.push(':') + number;
    lemma_decimal_is_parsed(line as nat);
    assert forall|i: int| 0 <= i < number.len() implies #[trigger] number[i] != ':' by {
        assert(is_digit(number[i]));
    }
    lemma_last_index_before(path, number, ':');
    assert(is_digit(number[0]));
    assert(all.skip(path.len() as int + 1) =~= number);
    assert(all.take(path.len() as int) =~= path);
}

/// Trimming leaves a part of a text.
proof fn lemma_trimmed_part(s: Seq<char>, what: Option<char>, c: char)
    requires
        !s.contains(c),
    ensures
        !trimmed(s, what).contains(c),
{
    lemma_front_part(s, what, c);
    lemma_back_part(trim_front(s, what), what, c);
}

proof fn lemma_front_part(s: Seq<char>, what: Option<char>, c: char)
    requires
        !s.contains(c),
    ensures
        !trim_front(s, what).contains(c),
    decreases s.len(),
{
    if s.len() > 0 && trimmable(s[0], what) {
        assert forall|i: int| 0 <= i < s.skip(1).len() implies s.skip(1)[i] != c by {
            assert(s[i + 1] == s.skip(1)[i]);
        }
        lemma_front_part(s.skip(1), what, c);
    }
}

proof fn lemma_back_part(s: Seq<char>, what: Option<char>, c: char)
    requires
        !s.contains(c),
    ensures
        !trim_back(s, what).contains(c),
    decreases s.len(),
{
    if s.len() > 0 && trimmable(s.last(), what) {
        assert forall|i: int| 0 <= i < s.drop_last().len() implies s.drop_last()[i] != c by {
            assert(s[i] == s.drop_last()[i]);
        }
        lemma_back_part(s.drop_last(), what, c);
    }
}

/// What stands before the first separator is none.
proof fn lemma_before_separator(s: Seq<char>, seps: Seq<char>)
    ensures
        first_of(s, seps) <= s.len(),
        forall|i: int| 0 <= i < first_of(s, seps) ==> !seps.contains(#[trigger] s[i]),
    decreases s.len(),
{
    if s.len() > 0 && !seps.contains(s[0]) {
        lemma_before_separator(s.skip(1), seps);
        assert forall|i: int| 0 <= i < first_of(s, seps) implies !seps.contains(#[trigger] s[i]) by {
            if i > 0 {
                assert(s[i] == s.skip(1)[i - 1]);
            }
        }
    }
}

/// No piece between separators holds one.
proof fn lemma_split_pieces(s: Seq<char>, seps: Seq<char>, i: int, c: char)
    requires
        0 <= i < split(s, seps).len(),
        seps.contains(c),
    ensures
        !split(s, seps)[i].contains(c),
    decreases s.len(),
{
    let end = first_of(s, seps) as int;
    lemma_before_separator(s, seps);
    if end >= s.len() {
        if s.contains(c) {
            let k = s.index_of(c);
            assert(!seps.contains(s[k]));
        }
    } else if i == 0 {
        let piece = s.take(end);
        if piece.contains(c) {
            let k = piece.index_of(c);
            assert(!seps.contains(s[k]));
        }
    } else {
        lemma_split_pieces(s.skip(end + 1), seps, i - 1, c);
    }
}

proof fn lemma_named_paths(pieces: Seq<Seq<char>>, c: char, i: int)
    requires
        forall|k: int| 0 <= k < pieces.len() ==> !(#[trigger] pieces[k]).contains(c),
        0 <= i < named_paths(pieces).len(),
    ensures
        named_paths(pieces)[i].len() > 0,
        !named_paths(pieces)[i].contains(c),
    decreases pieces.len(),
{
    if pieces.len() > 0 {
        let front = pieces.drop_last();
        let rest = named_paths(front);
        if i < rest.len() {
            assert forall|k: int| 0 <= k < front.len() implies !(#[trigger] front[k]).contains(
                c,
            ) by {
                assert(front[k] == pieces[k]);
            }
            lemma_named_paths(front, c, i);
        } else {
            let last = pieces[pieces.len() - 1];
            lemma_trimmed_part(last, None, c);
            lemma_trimmed_part(trimmed(last, None), Some('"'), c);
            lemma_trimmed_part(trimmed(trimmed(last, None), Some('"')), Some('\''), c);
        }
    }
}

/// The paths of a list are not empty, and none holds what stands between them.
pub proof fn law_workspace_paths_are_whole(raw: Seq<char>, i: int, c: char)
    requires
        0 <= i < workspace_paths(raw).len(),
        path_separators().contains(c),
    ensures
        workspace_paths(raw)[i].len() > 0,
        !workspace_paths(raw)[i].contains(c),
{
    let pieces = split(raw, path_separators());
    assert forall|k: int| 0 <= k < pieces.len() implies !(#[trigger] pieces[k]).contains(c) by {
        lemma_split_pieces(raw, path_separators(), k, c);
    }
    lemma_named_paths(pieces, c, i);
}

/// A list without semicolons and line ends is one path, colons and all.
pub proof fn law_colons_split_no_paths(raw: Seq<char>)
    requires
        forall|i: int| 0 <= i < raw.len() ==> !path_separators().contains(#[trigger] raw[i]),
        unquoted(raw).len() > 0,
    ensures
        workspace_paths(raw) == seq![unquoted(raw)],
{
    let seps = path_separators();
    lemma_before_separator(raw, seps);
    lemma_no_separator(raw, seps);
    let pieces = split(raw, seps);
    assert(pieces =~= seq![raw]);
    assert(pieces.drop_last() =~= seq![]);
    assert(named_paths(pieces.drop_last()) =~= seq![]);
    assert(workspace_paths(raw) =~= seq![unquoted(raw)]);
}

/// Without separators the first one lies behind the end.
proof fn lemma_no_separator(s: Seq<char>, seps: Seq<char>)
    requires
        forall|i: int| 0 <= i < s.len() ==> !seps.contains(#[trigger] s[i]),
    ensures
        first_of(s, seps) == s.len(),
    decreases s.len(),
{
    if s.len() > 0 {
        assert(!seps.contains(s[0]));
        assert forall|i: int| 0 <= i < s.skip(1).len() implies !seps.contains(
            #[trigger] s.skip(1)[i],
        ) by {
            assert(s.skip(1)[i] == s[i + 1]);
        }
        lemma_no_separator(s.skip(1), seps);
    }
}

proof fn lemma_last_index(s: Seq<char>, c: char)
    ensures
        -1 <= last_index(s, c) < s.len(),
        last_index(s, c) >= 0 ==> s[last_index(s, c)] == c,
        forall|k: int| last_index(s, c) < k < s.len() ==> #[trigger] s[k] != c,
    decreases s.len(),
{
    if s.len() > 0 && s.last() != c {
        lemma_last_index(s.drop_last(), c);
        assert forall|k: int| last_index(s, c) < k < s.len() implies #[trigger] s[k] != c by {
            if k < s.len() - 1 {
                assert(s.drop_last()[k] == s[k]);
            }
        }
    }
}

/// A target without a colon names no line, and neither does one with something else
/// than a number above zero behind its last colon.
pub proof fn law_target_without_line(s: Seq<char>)
    ensures
        !s.contains(':') ==> target_of(s) == (s, None::<u32>),
        forall|path: Seq<char>, rest: Seq<char>|
            s == #[trigger] (path.push(':') + rest) && !rest.contains(':') && (parsed_u32(
                rest,
            ) is None || parsed_u32(rest) == Some(0u32)) ==> target_of(s) == (s, None::<u32>),
{
    lemma_last_index(s, ':');
    assert forall|path: Seq<char>, rest: Seq<char>|
        s == #[trigger] (path.push(':') + rest) && !rest.contains(':') && (parsed_u32(rest) is None
            || parsed_u32(rest) == Some(0u32)) implies target_of(s) == (s, None::<u32>) by {
        let at = path.len() as int;
        assert(s[at] == ':');
        let found = last_index(s, ':');
        assert(found == at) by {
            if found > at {
                assert(rest[found - at - 1] == ':');
                assert(rest.contains(':'));
            }
        }
        assert(s.skip(at + 1) =~= rest);
    }
}

/// Quotes around a path are taken off, and white space around them: first white
/// space, then double quotes, then single ones.
pub proof fn law_unquoted(front: Seq<char>, path: Seq<char>, back: Seq<char>)
    requires
        forall|k: int| 0 <= k < front.len() ==> whitespace(#[trigger] front[k]),
        forall|k: int| 0 <= k < back.len() ==> whitespace(#[trigger] back[k]),
        path.len() > 0,
        !whitespace(path[0]) && !whitespace(path.last()),
        path[0] != '"' && path.last() != '"',
        path[0] != '\'' && path.last() != '\'',
    ensures
        unquoted(front + path + back) == path,
        unquoted(front + (seq!['"'] + path + seq!['"']) + back) == path,
        unquoted(front + (seq!['\''] + path + seq!['\'']) + back) == path,
        unquoted(front + (seq!['"', '\''] + path + seq!['\'', '"']) + back) == path,
        unquoted(front + back).len() == 0,
{
    let none: Seq<char> = seq![];
    let (d, s): (Seq<char>, Seq<char>) = (seq!['"'], seq!['\'']);
    law_trims(front, path, back, None);
    law_trims(none, path, none, Some('"'));
    law_trims(none, path, none, Some('\''));
    assert(none + path + none =~= path);
    law_trims(front, d + path + d, back, None);
    law_trims(d, path, d, Some('"'));
    let single = s + path + s;
    law_trims(front, single, back, None);
    law_trims(none, single, none, Some('"'));
    assert(none + single + none =~= single);
    law_trims(s, path, s, Some('\''));
    let both: Seq<char> = seq!['"', '\''] + path + seq!['\'', '"'];
    assert(both =~= d + single + d);
    law_trims(front, both, back, None);
    law_trims(d, single, d, Some('"'));
    law_trims(front, none, back, None);
    assert(front + none + back =~= front + back);
    law_trims(none, none, none, Some('"'));
    law_trims(none, none, none, Some('\''));
    assert(none + none + none =~= none);
}

proof fn lemma_named_paths_join(a: Seq<Seq<char>>, b: Seq<Seq<char>>)
    ensures
        named_paths(a + b) == named_paths(a) + named_paths(b),
    decreases b.len(),
{
    if b.len() == 0 {
        assert(a + b =~= a);
        assert(named_paths(a) + named_paths(b) =~= named_paths(a));
    } else {
        lemma_named_paths_join(a, b.drop_last());
        assert((a + b).drop_last() =~= a + b.drop_last());
        assert((a + b).last() == b.last());
        assert(named_paths(a + b) =~= named_paths(a) + named_paths(b));
    }
}

/// Workspace folders are named one after the other, with a semicolon, a newline or a
/// carriage return between them: the first is what stands before the first of these,
/// without white space and quotes around it, and the others follow. What is empty
/// then names none.
pub proof fn law_workspace_paths_in_order(a: Seq<char>, sep: char, rest: Seq<char>)
    requires
        forall|k: int|
            0 <= k < a.len() ==> #[trigger] a[k] != ';' && a[k] != '\n' && a[k] != '\r',
        sep == ';' || sep == '\n' || sep == '\r',
    ensures
        unquoted(a).len() > 0 ==> workspace_paths(a.push(sep) + rest) == seq![unquoted(a)]
            + workspace_paths(rest),
        unquoted(a).len() == 0 ==> workspace_paths(a.push(sep) + rest) == workspace_paths(rest),
        unquoted(a).len() > 0 ==> workspace_paths(a) == seq![unquoted(a)],
        unquoted(a).len() == 0 ==> workspace_paths(a).len() == 0,
{
    let seps = path_separators();
    assert(seps[0] == ';' && seps[1] == '\n' && seps[2] == '\r');
    assert(seps.contains(sep)) by {
        if sep == ';' {
            assert(seps[0] == sep);
        } else if sep == '\n' {
            assert(seps[1] == sep);
        } else {
            assert(seps[2] == sep);
        }
    }
    assert forall|k: int| 0 <= k < a.len() implies !seps.contains(#[trigger] a[k]) by {
        if seps.contains(a[k]) {
            let j = seps.index_of(a[k]);
            assert(seps[j] == a[k]);
        }
    }
    law_splits(a, sep, rest, seps);
    lemma_named_paths_join(seq![a], split(rest, seps));
    reveal_with_fuel(named_paths, 2);
    assert(seq![a].drop_last() =~= seq![]);
    assert(seq![a].last() == a);
    let none: Seq<Seq<char>> = seq![];
    assert(none.push(unquoted(a)) =~= seq![unquoted(a)]);
    assert(none + workspace_paths(rest) =~= workspace_paths(rest));
}

/// The root, where none is given: the first workspace folder that is there, else the
/// folder that the editor names if it is there, else the current one, else `.`.
pub proof fn law_default_root(
    folders: Seq<Folder>,
    editor: Option<Folder>,
    current: Option<String>,
    i: int,
)
    ensures
        0 <= i < folders.len() && folders[i].is_dir && (forall|j: int|
            0 <= j < i ==> !(#[trigger] folders[j]).is_dir) ==> default_root(
            folders,
            editor,
            current,
        ) == folders[i].path@,
        (forall|j: int| 0 <= j < folders.len() ==> !(#[trigger] folders[j]).is_dir) ==> {
            &&& editor is Some && editor->0.is_dir ==> default_root(folders, editor, current)
                == editor->0.path@
            &&& (editor is None || !editor->0.is_dir) && current is Some ==> default_root(
                folders,
                editor,
                current,
            ) == current->0@
            &&& (editor is None || !editor->0.is_dir) && current is None ==> default_root(
                folders,
                editor,
                current,
            ) == "."@
        },
{
    lemma_first_there(folders, i);
}

proof fn lemma_first_there(folders: Seq<Folder>, i: int)
    ensures
        0 <= i < folders.len() && folders[i].is_dir && (forall|j: int|
            0 <= j < i ==> !(#[trigger] folders[j]).is_dir) ==> first_there(folders) == Some(
            folders[i].path@,
        ),
        (forall|j: int| 0 <= j < folders.len() ==> !(#[trigger] folders[j]).is_dir) ==> first_there(
            folders,
        ) is None,
    decreases folders.len(),
{
    if folders.len() > 0 {
        let rest = folders.skip(1);
        lemma_first_there(rest, i - 1);
        if 0 < i < folders.len() && folders[i].is_dir && (forall|j: int|
            0 <= j < i ==> !(#[trigger] folders[j]).is_dir) {
            assert(!folders[0].is_dir);
            assert(rest[i - 1] == folders[i]);
            assert forall|j: int| 0 <= j < i - 1 implies !(#[trigger] rest[j]).is_dir by {
                assert(rest[j] == folders[j + 1]);
            }
        }
        if forall|j: int| 0 <= j < folders.len() ==> !(#[trigger] folders[j]).is_dir {
            assert(!folders[0].is_dir);
            assert forall|j: int| 0 <= j < rest.len() implies !(#[trigger] rest[j]).is_dir by {
                assert(rest[j] == folders[j + 1]);
            }
        }
    }
}

} // verus!
