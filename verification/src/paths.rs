//! Paths as text, with `/` between their components.

use vstd::prelude::*;
use vstd::string::StringExecFns;

use crate::text::chars_of;
use crate::text::first_index;
use crate::text::index_from;
use crate::text::text_between;
use crate::text::texts;

verus! {

/// The spans of the components from `from` on: what stands between slashes,
/// without the empty ones and without `.`.
pub open spec fn spans_from(s: Seq<char>, from: int) -> Seq<(int, int)>
    decreases (if from < s.len() { s.len() - from } else { 0 }),
{
    if from < 0 || from >= s.len() {
        seq![]
    } else {
        let end = from + first_index(s.skip(from), '/');
        let rest = spans_from(s, end + 1);
        if end == from || s.subrange(from, end) == seq!['.'] {
            rest
        } else {
            seq![(from, end)] + rest
        }
    }
}

/// The path starts at the root.
pub open spec fn absolute(s: Seq<char>) -> bool {
    s.len() > 0 && s[0] == '/'
}

/// The path starts with a `.` for the current directory.
pub open spec fn starts_here(s: Seq<char>) -> bool {
    s.len() > 0 && s[0] == '.' && (s.len() == 1 || s[1] == '/')
}

/// The spans of the components of a path. A leading `/` is one, and so is a
/// leading `.`.
pub open spec fn component_spans(s: Seq<char>) -> Seq<(int, int)> {
    if absolute(s) || starts_here(s) {
        seq![(0int, 1int)] + spans_from(s, 1)
    } else {
        spans_from(s, 0)
    }
}

/// The components of a path.
pub open spec fn components(s: Seq<char>) -> Seq<Seq<char>> {
    component_spans(s).map_values(|p: (int, int)| s.subrange(p.0, p.1))
}

/// What is left of a path behind its first `n` components.
pub open spec fn behind(s: Seq<char>, n: int) -> Seq<char> {
    let spans = component_spans(s);
    if n >= spans.len() {
        seq![]
    } else {
        s.subrange(spans[n].0, spans.last().1)
    }
}

/// What is left of `path` below `base`, if `path` lies there.
pub open spec fn relative(path: Seq<char>, base: Seq<char>) -> Option<Seq<char>> {
    let n = components(base).len();
    if n <= components(path).len() && components(path).take(n as int) == components(base) {
        Some(behind(path, n as int))
    } else {
        None
    }
}

/// A path as it is shown: below the root where it lies there.
pub open spec fn shown_path(root: Seq<char>, path: Seq<char>) -> Seq<char> {
    match relative(path, root) {
        Some(rest) => rest,
        None => path,
    }
}

/// A component that names a file or a directory.
pub open spec fn names_entry(c: Seq<char>) -> bool {
    c != seq!['/'] && c != seq!['.'] && c != seq!['.', '.']
}

/// The last component of a path, if it names a file or a directory.
pub open spec fn base_name(s: Seq<char>) -> Option<Seq<char>> {
    let parts = components(s);
    if parts.len() > 0 && names_entry(parts.last()) {
        Some(parts.last())
    } else {
        None
    }
}

/// `rest` seen from `base`.
pub open spec fn joined(base: Seq<char>, rest: Seq<char>) -> Seq<char> {
    if absolute(rest) {
        rest
    } else if base.len() > 0 && base.last() != '/' {
        base.push('/') + rest
    } else {
        base + rest
    }
}

/// The parts of a path, and where each of them stands.
struct Parts {
    chars: Vec<char>,
    spans: Vec<(usize, usize)>,
}

/// Spans as mathematical integers.
spec fn as_spans(v: Seq<(usize, usize)>) -> Seq<(int, int)> {
    v.map_values(|p: (usize, usize)| (p.0 as int, p.1 as int))
}

impl Parts {
    /// These are the parts of `s`.
    spec fn of(self, s: Seq<char>) -> bool {
        &&& self.chars@ == s
        &&& as_spans(self.spans@) == component_spans(s)
        &&& in_line(self.spans@, s.len() as int)
    }
}

/// The spans follow each other within the first `end` characters.
spec fn in_line(spans: Seq<(usize, usize)>, end: int) -> bool {
    &&& forall|i: int| 0 <= i < spans.len() ==> (#[trigger] spans[i]).0 <= spans[i].1 <= end
    &&& forall|i: int, j: int|
        0 <= i < j < spans.len() ==> (#[trigger] spans[i]).1 <= (#[trigger] spans[j]).0
}

/// Takes a path apart.
fn parts_of(path: &str) -> (res: Parts)
    ensures
        res.of(path@),
{
    let chars = chars_of(path);
    let ghost s = path@;
    let mut spans: Vec<(usize, usize)> = Vec::new();
    let mut i: usize = 0;
    if chars.len() > 0 && (chars[0] == '/' || (chars[0] == '.' && (chars.len() == 1 || chars[1]
        == '/'))) {
        spans.push((0, 1));
        i = 1;
        assert(as_spans(spans@) + spans_from(s, i as int) =~= component_spans(s));
    } else {
        assert(as_spans(spans@) + spans_from(s, i as int) =~= component_spans(s));
    }
    while i < chars.len()
        invariant
            chars@ == s,
            as_spans(spans@) + spans_from(s, i as int) == component_spans(s),
            in_line(spans@, s.len() as int),
            forall|k: int| 0 <= k < spans@.len() ==> (#[trigger] spans@[k]).1 <= i,
        decreases chars@.len() - i,
    {
        let end = index_from(chars.as_slice(), i, '/');
        let ghost before = spans@;
        let ghost piece = s.subrange(i as int, end as int);
        let dot = end - i == 1 && chars[i] == '.';
        assert(dot == (piece == seq!['.'])) by {
            if dot {
                assert(piece =~= seq!['.']);
            } else if piece == seq!['.'] {
                assert(seq!['.'].len() == 1 && seq!['.'][0] == '.');
                assert(piece.len() == end - i);
                assert(piece[0] == s[i as int]);
            }
        }
        if end > i && !dot {
            spans.push((i, end));
            assert(as_spans(spans@) =~= as_spans(before).push((i as int, end as int)));
        }
        assert(as_spans(spans@) + spans_from(s, end + 1) =~= as_spans(before) + spans_from(
            s,
            i as int,
        ));
        if end == chars.len() {
            assert(spans_from(s, end + 1) =~= spans_from(s, end as int));
            i = end;
        } else {
            i = end + 1;
        }
    }
    assert(as_spans(spans@) =~= component_spans(s));
    Parts { chars, spans }
}

/// The text of the component with the given span.
fn span_text(chars: &Vec<char>, span: (usize, usize)) -> (res: String)
    requires
        span.0 <= span.1 <= chars@.len(),
    ensures
        res@ == chars@.subrange(span.0 as int, span.1 as int),
{
    text_between(chars.as_slice(), span.0, span.1)
}

/// The components of a path.
pub fn components_of(path: &str) -> (res: Vec<String>)
    ensures
        texts(res@) == components(path@),
{
    let parts = parts_of(path);
    let ghost s = path@;
    let mut res: Vec<String> = Vec::new();
    let mut i: usize = 0;
    while i < parts.spans.len()
        invariant
            parts.of(s),
            i <= parts.spans@.len(),
            res@.len() == i,
            forall|k: int| 0 <= k < i ==> (#[trigger] res@[k])@ == components(s)[k],
        decreases parts.spans@.len() - i,
    {
        let text = span_text(&parts.chars, parts.spans[i]);
        assert(component_spans(s)[i as int] == as_spans(parts.spans@)[i as int]);
        res.push(text);
        i = i + 1;
    }
    assert(component_spans(s).len() == parts.spans@.len());
    assert(texts(res@) =~= components(s));
    res
}

/// What is left of `path` below `base`, if `path` lies there.
pub fn strip_base(path: &str, base: &str) -> (res: Option<String>)
    ensures
        match res {
            Some(rest) => relative(path@, base@) == Some(rest@),
            None => relative(path@, base@) is None,
        },
{
    let parts = components_of(path);
    let ahead = components_of(base);
    let ghost (p, b) = (components(path@), components(base@));
    assert(texts(parts@).len() == p.len());
    assert(texts(ahead@).len() == b.len());
    if ahead.len() > parts.len() {
        return None;
    }
    let mut i: usize = 0;
    while i < ahead.len()
        invariant
            i <= ahead@.len() <= parts@.len(),
            texts(parts@) == p,
            texts(ahead@) == b,
            p == components(path@),
            b == components(base@),
            forall|k: int| 0 <= k < i ==> p[k] == b[k],
        decreases ahead@.len() - i,
    {
        let same = *parts[i].as_str() == *ahead[i].as_str();
        assert(p[i as int] == texts(parts@)[i as int]);
        assert(b[i as int] == texts(ahead@)[i as int]);
        if !same {
            assert(p.take(b.len() as int)[i as int] != b[i as int]);
            return None;
        }
        i = i + 1;
    }
    assert(p.take(b.len() as int) =~= b);
    Some(skip_components(path, i))
}

/// What is left of a path behind its first `n` components.
fn skip_components(path: &str, n: usize) -> (res: String)
    ensures
        res@ == behind(path@, n as int),
{
    let parts = parts_of(path);
    let ghost spans = component_spans(path@);
    assert(spans.len() == parts.spans@.len());
    if n >= parts.spans.len() {
        let none = String::new();
        assert(none@ =~= seq![]);
        none
    } else {
        let last = parts.spans.len() - 1;
        let from = parts.spans[n].0;
        let to = parts.spans[last].1;
        assert(spans[n as int] == as_spans(parts.spans@)[n as int]);
        assert(spans[last as int] == as_spans(parts.spans@)[last as int]);
        assert(parts.spans@[n as int].0 <= parts.spans@[n as int].1);
        assert(n < last ==> parts.spans@[n as int].1 <= parts.spans@[last as int].0);
        assert(from <= to);
        text_between(parts.chars.as_slice(), from, to)
    }
}

/// A path as it is shown: below the root where it lies there.
pub fn display_path(root: &str, path: &str) -> (res: String)
    ensures
        res@ == shown_path(root@, path@),
{
    match strip_base(path, root) {
        Some(rest) => rest,
        None => path.to_owned(),
    }
}

/// The last component of a path, if it names a file or a directory.
pub fn file_name(path: &str) -> (res: Option<String>)
    ensures
        match res {
            Some(name) => base_name(path@) == Some(name@),
            None => base_name(path@) is None,
        },
{
    let mut parts = components_of(path);
    let ghost all = components(path@);
    assert(texts(parts@).len() == all.len());
    match parts.pop() {
        None => None,
        Some(last) => {
            assert(last@ == all.last());
            proof {
                reveal_strlit("/");
                reveal_strlit(".");
                reveal_strlit("..");
                assert("/"@ =~= seq!['/']);
                assert("."@ =~= seq!['.']);
                assert(".."@ =~= seq!['.', '.']);
            }
            if *last.as_str() == *"/" || *last.as_str() == *"." || *last.as_str() == *".." {
                None
            } else {
                Some(last)
            }
        },
    }
}

/// Whether the path starts at the root.
pub fn is_absolute(path: &str) -> (res: bool)
    ensures
        res == absolute(path@),
{
    let chars = chars_of(path);
    chars.len() > 0 && chars[0] == '/'
}

/// `rest` seen from `base`.
pub fn join(base: &str, rest: &str) -> (res: String)
    ensures
        res@ == joined(base@, rest@),
{
    if is_absolute(rest) {
        return rest.to_owned();
    }
    let chars = chars_of(base);
    let mut res = base.to_owned();
    if chars.len() > 0 && chars[chars.len() - 1] != '/' {
        res.push('/');
    }
    res.append(rest);
    res
}

proof fn lemma_first_slash(s: Seq<char>)
    ensures
        first_index(s, '/') <= s.len(),
        forall|k: int| 0 <= k < first_index(s, '/') ==> #[trigger] s[k] != '/',
        first_index(s, '/') < s.len() ==> s[first_index(s, '/') as int] == '/',
    decreases s.len(),
{
    if s.len() > 0 && s[0] != '/' {
        let rest = s.skip(1);
        lemma_first_slash(rest);
        assert forall|k: int| 0 <= k < first_index(s, '/') implies #[trigger] s[k] != '/' by {
            if k > 0 {
                assert(rest[k - 1] == s[k]);
            }
        }
        if first_index(s, '/') < s.len() {
            assert(rest[first_index(rest, '/') as int] == s[first_index(s, '/') as int]);
        }
    }
}

proof fn lemma_slash_at(s: Seq<char>, k: int)
    requires
        0 <= k <= s.len(),
        forall|i: int| 0 <= i < k ==> #[trigger] s[i] != '/',
        k < s.len() ==> s[k] == '/',
    ensures
        first_index(s, '/') == k,
{
    lemma_first_slash(s);
    let f = first_index(s, '/') as int;
    if f < k {
        assert(s[f] != '/');
    } else if k < f {
        assert(s[k] != '/');
    }
}

spec fn moved(spans: Seq<(int, int)>, by: int) -> Seq<(int, int)> {
    spans.map_values(|p: (int, int)| (p.0 + by, p.1 + by))
}

proof fn lemma_spans_moved(a: Seq<char>, b: Seq<char>, from: int)
    requires
        0 <= from,
    ensures
        spans_from(a + b, a.len() + from) == moved(spans_from(b, from), a.len() as int),
    decreases (if from < b.len() {
        b.len() - from
    } else {
        0
    }),
{
    let s = a + b;
    let n = a.len() as int;
    if from < b.len() {
        assert(s.skip(n + from) =~= b.skip(from));
        lemma_first_slash(b.skip(from));
        let end = from + first_index(b.skip(from), '/');
        lemma_spans_moved(a, b, end + 1);
        assert(s.subrange(n + from, n + end) =~= b.subrange(from, end));
        let rest = spans_from(b, end + 1);
        assert(moved(seq![(from, end)] + rest, n) =~= seq![(n + from, n + end)] + moved(rest, n));
    } else {
        assert(spans_from(s, n + from) =~= moved(spans_from(b, from), n));
    }
}

proof fn lemma_spans_cut(s: Seq<char>, from: int, m: int)
    requires
        0 <= from <= m < s.len(),
        s[m] == '/',
    ensures
        spans_from(s, from) == spans_from(s.take(m), from) + spans_from(s, m + 1),
    decreases m - from,
{
    let t = s.take(m);
    let rest = s.skip(from);
    lemma_first_slash(rest);
    let end = from + first_index(rest, '/');
    assert(end <= m) by {
        if end > m {
            assert(rest[m - from] == '/');
        }
    }
    if from < m {
        let part = t.skip(from);
        assert forall|i: int| 0 <= i < end - from implies #[trigger] part[i] != '/' by {
            assert(rest[i] == part[i]);
        }
        if end < m {
            assert(part[end - from] == rest[end - from]);
        }
        lemma_slash_at(part, end - from);
        assert(t.subrange(from, end) =~= s.subrange(from, end));
        if end < m {
            lemma_spans_cut(s, end + 1, m);
            let more = spans_from(t, end + 1) + spans_from(s, m + 1);
            assert(seq![(from, end)] + more =~= (seq![(from, end)] + spans_from(t, end + 1))
                + spans_from(s, m + 1));
        } else {
            assert(spans_from(t, end + 1) =~= seq![]);
            assert(seq![(from, end)] + spans_from(s, m + 1) =~= (seq![(from, end)] + spans_from(
                t,
                end + 1,
            )) + spans_from(s, m + 1));
            assert(spans_from(s, m + 1) =~= spans_from(t, end + 1) + spans_from(s, m + 1));
        }
    } else {
        assert(spans_from(t, from) =~= seq![]);
        assert(end == from) by {
            assert(rest[0] == '/');
        }
        assert(spans_from(s, m + 1) =~= spans_from(t, from) + spans_from(s, m + 1));
    }
}

/// A path below a directory, without a `/` or a `.` of its own to begin with, and
/// with neither a `/` nor a `/.` at its end.
pub open spec fn is_plain(s: Seq<char>) -> bool {
    &&& s.len() > 0
    &&& s[0] != '/'
    &&& !(s[0] == '.' && (s.len() == 1 || s[1] == '/'))
    &&& s.last() != '/'
    &&& !(s.last() == '.' && s.len() >= 2 && s[s.len() - 2] == '/')
}

proof fn lemma_last_span(s: Seq<char>, from: int)
    requires
        0 <= from < s.len(),
        s.last() != '/',
        !(s.last() == '.' && (s.len() - 1 == from || s[s.len() - 2] == '/')),
    ensures
        spans_from(s, from).len() > 0,
        spans_from(s, from).last().1 == s.len(),
    decreases s.len() - from,
{
    let rest = s.skip(from);
    lemma_first_slash(rest);
    let end = from + first_index(rest, '/');
    if end < s.len() {
        assert(rest[end - from] == '/');
        assert(end != s.len() - 1);
        lemma_last_span(s, end + 1);
    } else {
        assert(spans_from(s, end + 1) =~= seq![]);
        assert(s.subrange(from, end).len() == s.len() - from);
        if s.len() - from == 1 {
            assert(s.subrange(from, end)[0] == s.last());
        }
    }
}

proof fn lemma_first_span(s: Seq<char>)
    requires
        is_plain(s),
    ensures
        spans_from(s, 0).len() > 0,
        spans_from(s, 0)[0].0 == 0,
{
    assert(s.skip(0) =~= s);
    lemma_first_slash(s);
    let end = first_index(s, '/') as int;
    assert(end > 0);
    assert(s.subrange(0, end) != seq!['.']) by {
        if s.subrange(0, end) == seq!['.'] {
            let dot: Seq<char> = seq!['.'];
            assert(dot.len() == 1 && dot[0] == '.');
            assert(s.subrange(0, end).len() == 1);
            assert(s.subrange(0, end)[0] == s[0]);
        }
    }
    assert(spans_from(s, 0) == seq![(0int, end)] + spans_from(s, end + 1));
}

proof fn lemma_joined_spans(base: Seq<char>, rest: Seq<char>)
    requires
        base.len() > 0,
        base.last() != '/',
    ensures
        component_spans(base.push('/') + rest) == component_spans(base) + moved(
            spans_from(rest, 0),
            base.len() as int + 1,
        ),
{
    let s = base.push('/') + rest;
    let m = base.len() as int;
    assert(s[m] == '/');
    assert(s.take(m) =~= base);
    assert(s[0] == base[0]);
    lemma_spans_moved(base.push('/'), rest, 0);
    if absolute(base) || base[0] == '.' && (base.len() == 1 || base[1] == '/') {
        assert(absolute(s) || starts_here(s));
        assert(absolute(base) || starts_here(base));
        lemma_spans_cut(s, 1, m);
        assert(component_spans(s) =~= component_spans(base) + spans_from(s, m + 1));
    } else {
        assert(!absolute(s) && !starts_here(s));
        assert(!absolute(base) && !starts_here(base));
        lemma_spans_cut(s, 0, m);
        assert(component_spans(s) =~= component_spans(base) + spans_from(s, m + 1));
    }
}

proof fn lemma_spans_lie_within(s: Seq<char>, from: int)
    requires
        0 <= from,
    ensures
        forall|i: int|
            0 <= i < spans_from(s, from).len() ==> from <= (#[trigger] spans_from(s, from)[i]).0
                < spans_from(s, from)[i].1 <= s.len(),
    decreases (if from < s.len() {
        s.len() - from
    } else {
        0
    }),
{
    if from < s.len() {
        lemma_first_slash(s.skip(from));
        let end = from + first_index(s.skip(from), '/');
        lemma_spans_lie_within(s, end + 1);
        let all = spans_from(s, from);
        let rest = spans_from(s, end + 1);
        assert forall|i: int| 0 <= i < all.len() implies from <= (#[trigger] all[i]).0 < all[i].1
            <= s.len() by {
            if all.len() > rest.len() {
                if i > 0 {
                    assert(all[i] == rest[i - 1]);
                }
            } else {
                assert(all[i] == rest[i]);
            }
        }
    }
}

/// A file below a directory is shown by its path below it: joining the directory and
/// a path, and leaving the directory out again, gives the path.
pub proof fn law_paths_below_a_root(root: Seq<char>, rest: Seq<char>)
    requires
        root.len() > 0,
        root.last() != '/',
        is_plain(rest),
    ensures
        joined(root, rest) == root + seq!['/'] + rest,
        relative(joined(root, rest), root) == Some(rest),
        shown_path(root, joined(root, rest)) == rest,
{
    let s = joined(root, rest);
    assert(s =~= root + seq!['/'] + rest);
    assert(s == root.push('/') + rest);
    lemma_joined_spans(root, rest);
    lemma_first_span(rest);
    lemma_last_span(rest, 0);
    lemma_spans_lie_within(root, 0);
    lemma_spans_lie_within(root, 1);
    let own = component_spans(root);
    let tail = moved(spans_from(rest, 0), root.len() as int + 1);
    let all = component_spans(s);
    let n = own.len() as int;
    assert(components(s).take(n) =~= components(root)) by {
        assert forall|i: int| 0 <= i < n implies components(s)[i] == components(root)[i] by {
            assert(all[i] == own[i]);
            assert(own[i].0 >= 0 && own[i].1 <= root.len());
            assert(s.subrange(own[i].0, own[i].1) =~= root.subrange(own[i].0, own[i].1));
        }
    }
    assert(all[n] == tail[0]);
    assert(all.last() == tail.last());
    assert(behind(s, n) =~= rest);
}

/// A path that does not begin with the components of the root is shown as it is.
pub proof fn law_other_paths_are_shown_whole(root: Seq<char>, path: Seq<char>, i: int)
    requires
        0 <= i < components(root).len(),
        i >= components(path).len() || components(path)[i] != components(root)[i],
    ensures
        relative(path, root) is None,
        shown_path(root, path) == path,
{
    let n = components(root).len() as int;
    if n <= components(path).len() && components(path).take(n) == components(root) {
        assert(components(path).take(n)[i] == components(path)[i]);
    }
}

/// The components of a path are the names between its slashes: a name of one
/// component alone, and behind a directory it is one more. Two slashes count as
/// one, and a slash at the end counts for nothing.
pub proof fn law_components(base: Seq<char>, name: Seq<char>)
    requires
        base.len() > 0,
        base.last() != '/',
        name.len() > 0,
        !name.contains('/'),
        name != seq!['.'],
    ensures
        components(name) == seq![name],
        components(base.push('/') + name) == components(base).push(name),
        components(base.push('/')) == components(base),
        components(base.push('/') + name.push('/')) == components(base).push(name),
        components(base.push('/').push('/') + name) == components(base).push(name),
        name != seq!['.', '.'] ==> base_name(base.push('/') + name) == Some(name) && base_name(name)
            == Some(name),
        base_name(base.push('/') + seq!['.', '.']) is None,
{
    lemma_one_span(name);
    lemma_one_span(seq!['.', '.']);
    assert(!seq!['.', '.'].contains('/'));
    assert(name[0] != '/') by {
        assert(name.contains(name[0]));
    }
    if name[0] == '.' && name.len() > 1 {
        assert(name.contains(name[1]));
    }
    if name[0] == '.' && name.len() == 1 {
        assert(name =~= seq!['.']);
    }
    assert(component_spans(name) == spans_from(name, 0));
    assert(name.subrange(0, name.len() as int) =~= name);
    assert(components(name) =~= seq![name]);
    lemma_joined_components(base, name);
    assert(components(base) + seq![name] =~= components(base).push(name));
    lemma_joined_components(base, seq![]);
    assert(base.push('/') + Seq::<char>::empty() =~= base.push('/'));
    assert(components(base) + Seq::<Seq<char>>::empty() =~= components(base));
    lemma_joined_components(base, name.push('/'));
    assert(name.push('/').subrange(0, name.len() as int) =~= name);
    lemma_joined_components(base, seq!['/'] + name);
    assert((seq!['/'] + name).subrange(1, name.len() as int + 1) =~= name);
    assert(base.push('/') + (seq!['/'] + name) =~= base.push('/').push('/') + name);
    lemma_joined_components(base, seq!['.', '.']);
    let up: Seq<char> = seq!['.', '.'];
    assert(up.subrange(0, 2) =~= up);
}

proof fn lemma_one_span(name: Seq<char>)
    requires
        name.len() > 0,
        !name.contains('/'),
        name != seq!['.'],
    ensures
        spans_from(name, 0) == seq![(0int, name.len() as int)],
        spans_from(name.push('/'), 0) == seq![(0int, name.len() as int)],
        spans_from(seq!['/'] + name, 0) == seq![(1int, name.len() as int + 1)],
{
    let n = name.len() as int;
    assert forall|i: int| 0 <= i < n implies #[trigger] name[i] != '/' by {
        assert(name.contains(name[i]));
    }
    assert(name.skip(0) =~= name);
    lemma_slash_at(name, n);
    assert(name.subrange(0, n) =~= name);
    assert(spans_from(name, n + 1) =~= seq![]);
    let closed = name.push('/');
    assert(closed.skip(0) =~= closed);
    lemma_slash_at(closed, n);
    assert(closed.subrange(0, n) =~= name);
    assert(spans_from(closed, n + 1) =~= seq![]);
    let opened = seq!['/'] + name;
    assert(opened.skip(0) =~= opened);
    lemma_slash_at(opened, 0);
    lemma_spans_moved(seq!['/'], name, 0);
    assert(spans_from(opened, 1) =~= seq![(1int, n + 1)]);
}

proof fn lemma_joined_components(base: Seq<char>, rest: Seq<char>)
    requires
        base.len() > 0,
        base.last() != '/',
    ensures
        components(base.push('/') + rest) == components(base) + spans_from(rest, 0).map_values(
            |p: (int, int)| rest.subrange(p.0, p.1),
        ),
{
    let s = base.push('/') + rest;
    lemma_joined_spans(base, rest);
    lemma_spans_lie_within(base, 0);
    lemma_spans_lie_within(base, 1);
    lemma_spans_lie_within(rest, 0);
    let own = component_spans(base);
    let more = spans_from(rest, 0);
    let all = component_spans(s);
    let wanted = components(base) + more.map_values(|p: (int, int)| rest.subrange(p.0, p.1));
    assert forall|i: int| 0 <= i < all.len() implies components(s)[i] == wanted[i] by {
        if i < own.len() {
            assert(all[i] == own[i]);
            assert(s.subrange(own[i].0, own[i].1) =~= base.subrange(own[i].0, own[i].1));
        } else {
            let p = more[i - own.len()];
            assert(all[i] == (p.0 + base.len() + 1, p.1 + base.len() + 1));
            assert(s.subrange(all[i].0, all[i].1) =~= rest.subrange(p.0, p.1));
        }
    }
    assert(components(s) =~= wanted);
}

/// An absolute path stays as it is, whatever it is joined to; a relative one goes
/// behind the base with one slash between them.
pub proof fn law_joined_paths(base: Seq<char>, rest: Seq<char>)
    ensures
        rest.len() > 0 && rest[0] == '/' ==> joined(base, rest) == rest,
        !(rest.len() > 0 && rest[0] == '/') && base.len() > 0 && base.last() != '/' ==> joined(
            base,
            rest,
        ) == base + seq!['/'] + rest,
        !(rest.len() > 0 && rest[0] == '/') && (base.len() == 0 || base.last() == '/') ==> joined(
            base,
            rest,
        ) == base + rest,
{
    assert(base.push('/') + rest =~= base + seq!['/'] + rest);
}

/// A root is shown by nothing below itself, and a path that ends before the root does
/// is shown as it is.
pub proof fn law_root_itself(root: Seq<char>)
    ensures
        relative(root, root) matches Some(rest) && rest.len() == 0,
        shown_path(root, root).len() == 0,
{
    let n = components(root).len() as int;
    assert(components(root).take(n) =~= components(root));
}

} // verus!
