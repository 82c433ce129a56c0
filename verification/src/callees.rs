//! The symbols that the body of a definition refers to.

use vstd::prelude::*;
use vstd::utf8::encode_utf8;

use crate::pages::at_most;
use crate::rows::text_bytes;
use crate::search::line_index;
use crate::sections::bounds;
use crate::sections::lines_from_to;
use crate::text::chars_of;
use crate::text::lines;
use crate::text::split_lines;
use crate::text::text_between;
use crate::text::texts;

verus! {

/// Whether Unicode calls a character a letter or a digit.
pub uninterp spec fn alphanumeric(c: char) -> bool;

/// `char::is_alphanumeric`: whether Unicode calls a character a letter or a
/// digit. Of the ASCII characters it does so of the letters and the digits.
pub assume_specification[ char::is_alphanumeric ](c: char) -> (res: bool)
    ensures
        res == alphanumeric(c),
        c <= '\u{7f}' ==> res == ('0' <= c <= '9' || 'A' <= c <= 'Z' || 'a' <= c <= 'z'),
;

/// The character belongs to a word.
pub open spec fn word_char(c: char) -> bool {
    alphanumeric(c) || c == '_'
}

/// How far the word at the beginning of `s` goes.
pub open spec fn word_end(s: Seq<char>) -> nat
    decreases s.len(),
{
    if s.len() == 0 || !word_char(s[0]) {
        0
    } else {
        1 + word_end(s.skip(1))
    }
}

/// The words of a line, and what is empty between them.
pub open spec fn words(s: Seq<char>) -> Seq<Seq<char>>
    decreases s.len(),
{
    let end = word_end(s) as int;
    if end >= s.len() {
        seq![s]
    } else {
        seq![s.take(end)] + words(s.skip(end + 1))
    }
}

/// A symbol that is referred to.
#[derive(Debug)]
pub struct CalleeHit {
    /// Its name.
    pub name: String,
    /// The number of the line.
    pub line: usize,
}

/// What a reference says.
#[verifier::ext_equal]
pub struct CalleeView {
    pub name: Seq<char>,
    pub line: int,
}

impl View for CalleeHit {
    type V = CalleeView;

    open spec fn view(&self) -> CalleeView {
        CalleeView { name: self.name@, line: self.line as int }
    }
}

/// What each reference of a list says.
pub open spec fn callee_views(v: Seq<CalleeHit>) -> Seq<CalleeView> {
    v.map_values(|h: CalleeHit| h@)
}

/// The word may refer to a symbol: it has three bytes at least, and is not the
/// name of the definition itself.
pub open spec fn may_refer(word: Seq<char>, name: Seq<char>) -> bool {
    text_bytes(word) >= 3 && word != name
}

/// The words of a line that may refer to a symbol.
pub open spec fn referring(found: Seq<Seq<char>>, name: Seq<char>, line: int) -> Seq<CalleeView>
    decreases found.len(),
{
    if found.len() == 0 {
        seq![]
    } else {
        let rest = referring(found.drop_last(), name, line);
        if may_refer(found.last(), name) {
            rest.push(CalleeView { name: found.last(), line })
        } else {
            rest
        }
    }
}

/// The words of lines that may refer to a symbol; the first line has the number
/// `first`.
pub open spec fn referring_lines(text: Seq<Seq<char>>, name: Seq<char>, first: int) -> Seq<
    CalleeView,
>
    decreases text.len(),
{
    if text.len() == 0 {
        seq![]
    } else {
        referring_lines(text.drop_last(), name, first) + referring(
            words(text.last()),
            name,
            first + text.len() - 1,
        )
    }
}

/// The words of a definition that may refer to a symbol.
pub open spec fn candidates(
    content: Seq<char>,
    start_line: u32,
    end_line: u32,
    name: Seq<char>,
) -> Seq<CalleeView> {
    referring_lines(
        lines_from_to(lines(content), start_line, end_line),
        name,
        line_index(start_line) + 1,
    )
}

/// The position behind the word that starts at `from`.
fn word_end_from(chars: &Vec<char>, from: usize) -> (res: usize)
    requires
        from <= chars@.len(),
    ensures
        res == from + word_end(chars@.skip(from as int)),
        from <= res <= chars@.len(),
{
    let mut i = from;
    while i < chars.len()
        invariant
            from <= i <= chars@.len(),
            from + word_end(chars@.skip(from as int)) == i + word_end(chars@.skip(i as int)),
        ensures
            i == from + word_end(chars@.skip(from as int)),
            from <= i <= chars@.len(),
        decreases chars@.len() - i,
    {
        assert(chars@.skip(i as int)[0] == chars@[i as int]);
        if !(chars[i].is_alphanumeric() || chars[i] == '_') {
            break;
        }
        assert(chars@.skip(i as int).skip(1) =~= chars@.skip(i + 1));
        i = i + 1;
    }
    i
}

/// The words of a line, and what is empty between them.
pub fn split_words(line: &str) -> (res: Vec<String>)
    ensures
        texts(res@) == words(line@),
{
    let chars = chars_of(line);
    let mut res: Vec<String> = Vec::new();
    let mut from: usize = 0;
    assert(chars@.skip(0) =~= line@);
    assert(texts(res@) =~= seq![]);
    assert(texts(res@) + words(line@) =~= words(line@));
    loop
        invariant
            from <= chars@.len(),
            chars@ == line@,
            texts(res@) + words(chars@.skip(from as int)) == words(line@),
        decreases chars@.len() - from,
    {
        let ghost rest = chars@.skip(from as int);
        let ghost before = res@;
        let end = word_end_from(&chars, from);
        let word = text_between(chars.as_slice(), from, end);
        res.push(word);
        assert(texts(res@) =~= texts(before).push(word@));
        if end >= chars.len() {
            assert(word@ =~= rest);
            assert(texts(res@) =~= texts(before) + seq![rest]);
            return res;
        }
        assert(word@ =~= rest.take(end - from));
        assert(rest.skip(end - from + 1) =~= chars@.skip(end + 1));
        assert(texts(res@) + words(chars@.skip(end + 1)) =~= texts(before) + (seq![word@] + words(
            chars@.skip(end + 1),
        )));
        from = end + 1;
    }
}

/// The words of a definition that may refer to a symbol.
pub fn callee_candidates(content: &str, start_line: u32, end_line: u32, name: &str) -> (res: Vec<
    CalleeHit,
>)
    ensures
        callee_views(res@) == candidates(content@, start_line, end_line, name@),
{
    let all = split_lines(content);
    let ghost text = lines(content@);
    assert(texts(all@).len() == all@.len());
    let (from, to) = bounds(all.len(), start_line, end_line);
    let ghost part = lines_from_to(text, start_line, end_line);
    let ghost first = line_index(start_line) + 1;
    let mut res: Vec<CalleeHit> = Vec::new();
    let mut i: usize = from;
    assert(part.take(0) =~= seq![]);
    assert(callee_views(res@) =~= seq![]);
    while i < to
        invariant
            from <= i <= to <= all@.len(),
            texts(all@) == text,
            part == text.subrange(from as int, to as int),
            to > from ==> from == first - 1,
            callee_views(res@) == referring_lines(part.take(i - from), name@, first),
        decreases to - i,
    {
        let ghost before = callee_views(res@);
        let ghost next = part.take(i - from + 1);
        assert(next.drop_last() =~= part.take(i - from));
        assert(next.last() == all@[i as int]@);
        let found = split_words(all[i].as_str());
        let ghost w = texts(found@);
        let mut k: usize = 0;
        assert(w.take(0) =~= seq![]);
        assert(before + referring(seq![], name@, i + 1) =~= before);
        while k < found.len()
            invariant
                k <= found@.len(),
                i < to <= all@.len(),
                w == texts(found@),
                callee_views(res@) == before + referring(w.take(k as int), name@, i + 1),
            decreases found@.len() - k,
        {
            let word = found[k].as_str();
            assert(w.take(k + 1).drop_last() =~= w.take(k as int));
            assert(w.take(k + 1).last() == found@[k as int]@);
            let ghost so_far = res@;
            if word.len() >= 3 && !(*word == *name) {
                res.push(CalleeHit { name: found[k].clone(), line: i + 1 });
                assert(callee_views(res@) =~= callee_views(so_far).push(res@.last()@));
                assert(callee_views(res@) =~= before + referring(w.take(k + 1), name@, i + 1));
            }
            k = k + 1;
        }
        assert(w.take(k as int) =~= w);
        i = i + 1;
    }
    assert(part.take(i - from) =~= part);
    res
}

/// The candidates that are known as symbols.
pub open spec fn known_ones(found: Seq<CalleeView>, known: Seq<bool>) -> Seq<CalleeView>
    decreases found.len(),
{
    if found.len() == 0 {
        seq![]
    } else {
        let rest = known_ones(found.drop_last(), known);
        let n = found.len() - 1;
        if n < known.len() && known[n] {
            rest.push(found.last())
        } else {
            rest
        }
    }
}

/// Adds the candidates that are known as symbols to `hits`, no more than
/// `limit` in all. Says whether there are as many as wanted.
pub fn collect_callees(
    hits: &mut Vec<CalleeHit>,
    found: &Vec<CalleeHit>,
    known: &Vec<bool>,
    limit: usize,
) -> (res: bool)
    requires
        old(hits)@.len() <= limit,
    ensures
        callee_views(final(hits)@) == at_most(
            callee_views(old(hits)@) + known_ones(callee_views(found@), known@),
            limit as int,
        ),
        res == (final(hits)@.len() >= limit),
{
    let ghost before = callee_views(hits@);
    let ghost all = callee_views(found@);
    let mut i: usize = 0;
    assert(all.take(0) =~= seq![]);
    assert(before + known_ones(seq![], known@) =~= before);
    while i < found.len() && hits.len() < limit
        invariant
            i <= found@.len(),
            hits@.len() <= limit,
            all == callee_views(found@),
            callee_views(hits@) == before + known_ones(all.take(i as int), known@),
        decreases found@.len() - i,
    {
        assert(all.take(i + 1).drop_last() =~= all.take(i as int));
        assert(all.take(i + 1).last() == found@[i as int]@);
        let ghost so_far = hits@;
        if i < known.len() && known[i] {
            hits.push(CalleeHit { name: found[i].name.clone(), line: found[i].line });
            assert(callee_views(hits@) =~= callee_views(so_far).push(found@[i as int]@));
            assert(callee_views(hits@) =~= before + known_ones(all.take(i + 1), known@));
        }
        i = i + 1;
    }
    proof {
        lemma_known_prefix(all, known@, i as int);
        assert(callee_views(hits@).len() == hits@.len());
        if i == found@.len() {
            assert(all.take(i as int) =~= all);
        }
        assert(at_most(before + known_ones(all, known@), limit as int) =~= callee_views(hits@));
    }
    hits.len() >= limit
}

proof fn lemma_known_prefix(found: Seq<CalleeView>, known: Seq<bool>, k: int)
    requires
        0 <= k <= found.len(),
    ensures
        known_ones(found.take(k), known).len() <= known_ones(found, known).len(),
        known_ones(found, known).take(known_ones(found.take(k), known).len() as int)
            == known_ones(found.take(k), known),
    decreases found.len(),
{
    let part = known_ones(found.take(k), known);
    let full = known_ones(found, known);
    if k == found.len() {
        assert(found.take(k) =~= found);
        assert(full.take(full.len() as int) =~= full);
    } else {
        let front = found.drop_last();
        lemma_known_prefix(front, known, k);
        assert(front.take(k) =~= found.take(k));
        assert(full.take(part.len() as int) =~= part);
    }
}

/// `word` stands in the line from `at` on as a whole word: letters, digits and
/// underscores, and none of these right before it or right behind it.
pub open spec fn stands_as_word(line: Seq<char>, word: Seq<char>, at: int) -> bool {
    &&& 0 <= at
    &&& at + word.len() <= line.len()
    &&& line.subrange(at, at + word.len()) == word
    &&& forall|k: int|
        at <= k < at + word.len() ==> alphanumeric(#[trigger] line[k]) || line[k] == '_'
    &&& at > 0 ==> !(alphanumeric(line[at - 1]) || line[at - 1] == '_')
    &&& at + word.len() < line.len() ==> !(alphanumeric(line[at + word.len()])
        || line[at + word.len()] == '_')
}

/// `word` is one of the words of the line.
pub open spec fn is_word_of(word: Seq<char>, line: Seq<char>) -> bool {
    exists|at: int| stands_as_word(line, word, at)
}

proof fn lemma_word_end(s: Seq<char>)
    ensures
        word_end(s) <= s.len(),
        forall|k: int| 0 <= k < word_end(s) ==> word_char(#[trigger] s[k]),
        word_end(s) < s.len() ==> !word_char(s[word_end(s) as int]),
    decreases s.len(),
{
    if s.len() > 0 && word_char(s[0]) {
        let rest = s.skip(1);
        lemma_word_end(rest);
        assert forall|k: int| 0 <= k < word_end(s) implies word_char(#[trigger] s[k]) by {
            if k > 0 {
                assert(rest[k - 1] == s[k]);
            }
        }
        if word_end(s) < s.len() {
            assert(rest[word_end(rest) as int] == s[word_end(s) as int]);
        }
    }
}

proof fn lemma_words_stand(s: Seq<char>, word: Seq<char>)
    requires
        word.len() > 0,
    ensures
        words(s).contains(word) <==> exists|at: int| stands_as_word(s, word, at),
    decreases s.len(),
{
    let end = word_end(s) as int;
    lemma_word_end(s);
    let found = words(s);
    if end >= s.len() {
        if found.contains(word) {
            assert(found[found.index_of(word)] == s);
            assert(s.subrange(0, s.len() as int) =~= s);
            assert(stands_as_word(s, word, 0));
        }
        if exists|at: int| stands_as_word(s, word, at) {
            let at = choose|at: int| stands_as_word(s, word, at);
            assert(at == 0) by {
                if at > 0 {
                    assert(word_char(s[at - 1]));
                }
            }
            assert(at + word.len() == s.len()) by {
                if at + word.len() < s.len() {
                    assert(word_char(s[at + word.len()]));
                }
            }
            assert(s.subrange(0, s.len() as int) =~= s);
            assert(found[0] == word);
        }
    } else {
        let rest = s.skip(end + 1);
        lemma_words_stand(rest, word);
        let first = seq![s.take(end)];
        if found.contains(word) {
            let i = found.index_of(word);
            if i == 0 {
                assert(s.take(end) =~= s.subrange(0, end));
                assert(stands_as_word(s, word, 0));
            } else {
                assert(words(rest)[i - 1] == found[i]);
                let at = choose|at: int| stands_as_word(rest, word, at);
                let there = at + end + 1;
                assert(s.subrange(there, there + word.len()) =~= rest.subrange(
                    at,
                    at + word.len(),
                ));
                assert forall|k: int|
                    there <= k < there + word.len() implies alphanumeric(#[trigger] s[k]) || s[k]
                    == '_' by {
                    assert(rest[k - end - 1] == s[k]);
                }
                if at > 0 {
                    assert(rest[at - 1] == s[there - 1]);
                }
                assert(stands_as_word(s, word, there));
            }
        }
        if exists|at: int| stands_as_word(s, word, at) {
            let at = choose|at: int| stands_as_word(s, word, at);
            if at <= end {
                assert(at == 0) by {
                    if at > 0 {
                        assert(word_char(s[at - 1]));
                    }
                }
                assert(word.len() == end) by {
                    if word.len() > end {
                        assert(alphanumeric(s[end]) || s[end] == '_');
                    }
                    if word.len() < end {
                        assert(word_char(s[word.len() as int]));
                    }
                }
                assert(s.take(end) =~= s.subrange(0, end));
                assert(found[0] == word);
            } else {
                let there = at - end - 1;
                assert(s.subrange(at, at + word.len()) =~= rest.subrange(
                    there,
                    there + word.len(),
                ));
                assert forall|k: int|
                    there <= k < there + word.len() implies alphanumeric(#[trigger] rest[k])
                    || rest[k] == '_' by {
                    assert(s[k + end + 1] == rest[k]);
                }
                if there > 0 {
                    assert(rest[there - 1] == s[at - 1]);
                }
                assert(stands_as_word(rest, word, there));
                let j = words(rest).index_of(word);
                assert(found[j + 1] == word);
            }
        }
    }
}

proof fn lemma_referring(found: Seq<Seq<char>>, name: Seq<char>, line: int, c: CalleeView)
    requires
        encode_utf8(c.name).len() <= usize::MAX,
    ensures
        referring(found, name, line).contains(c) <==> found.contains(c.name) && c.line == line
            && c.name != name && encode_utf8(c.name).len() >= 3,
    decreases found.len(),
{
    let res = referring(found, name, line);
    if found.len() > 0 {
        let front = found.drop_last();
        let rest = referring(front, name, line);
        lemma_referring(front, name, line, c);
        if res.contains(c) {
            let k = res.index_of(c);
            if k < rest.len() {
                assert(rest[k] == c);
                assert(found[front.index_of(c.name)] == c.name);
            } else {
                assert(found[found.len() - 1] == c.name);
            }
        }
        if found.contains(c.name) && c.line == line && c.name != name && encode_utf8(
            c.name,
        ).len() >= 3 {
            let k = found.index_of(c.name);
            if k < front.len() {
                assert(front[k] == c.name);
                assert(res[rest.index_of(c)] == c);
            } else {
                assert(res[rest.len() as int] == c);
            }
        }
    }
}

proof fn lemma_referring_lines(text: Seq<Seq<char>>, name: Seq<char>, first: int, c: CalleeView)
    requires
        encode_utf8(c.name).len() <= usize::MAX,
    ensures
        referring_lines(text, name, first).contains(c) <==> first <= c.line < first + text.len()
            && words(text[c.line - first]).contains(c.name) && c.name != name && encode_utf8(
            c.name,
        ).len() >= 3,
    decreases text.len(),
{
    let res = referring_lines(text, name, first);
    if text.len() > 0 {
        let front = text.drop_last();
        let before = referring_lines(front, name, first);
        let last = referring(words(text.last()), name, first + text.len() - 1);
        lemma_referring_lines(front, name, first, c);
        lemma_referring(words(text.last()), name, first + text.len() - 1, c);
        if res.contains(c) {
            let k = res.index_of(c);
            if k < before.len() {
                assert(before[k] == c);
            } else {
                assert(last[k - before.len()] == c);
            }
        }
        if before.contains(c) {
            assert(res[before.index_of(c)] == c);
        }
        if last.contains(c) {
            assert(res[before.len() + last.index_of(c)] == c);
        }
    }
}

/// The candidates of a definition are the words of its lines, the first line and
/// the last one included: each word of three bytes at least that is not the name
/// of the definition is a candidate with the number of its line, and nothing else
/// is.
pub proof fn law_words_of_body_are_candidates(
    content: Seq<char>,
    start_line: u32,
    end_line: u32,
    name: Seq<char>,
    word: Seq<char>,
    n: int,
)
    requires
        encode_utf8(word).len() <= usize::MAX,
    ensures
        candidates(content, start_line, end_line, name).contains(
            (CalleeView { name: word, line: n }),
        ) <==> {
            &&& 1 <= n <= lines(content).len()
            &&& start_line <= n <= end_line
            &&& word != name
            &&& encode_utf8(word).len() >= 3
            &&& is_word_of(word, lines(content)[n - 1])
        },
{
    let text = lines(content);
    let part = lines_from_to(text, start_line, end_line);
    let first = line_index(start_line) + 1;
    let c = CalleeView { name: word, line: n };
    lemma_referring_lines(part, name, first, c);
    if encode_utf8(word).len() >= 3 {
        assert(word.len() > 0) by {
            reveal_with_fuel(encode_utf8, 1);
        }
        if 1 <= n <= text.len() {
            lemma_words_stand(text[n - 1], word);
        }
    }
}

proof fn lemma_referring_line(found: Seq<Seq<char>>, name: Seq<char>, line: int, i: int)
    requires
        0 <= i < referring(found, name, line).len(),
    ensures
        referring(found, name, line)[i].line == line,
    decreases found.len(),
{
    if i < referring(found.drop_last(), name, line).len() {
        lemma_referring_line(found.drop_last(), name, line, i);
    }
}

proof fn lemma_lines_in_order(text: Seq<Seq<char>>, name: Seq<char>, first: int, i: int, j: int)
    requires
        0 <= i <= j < referring_lines(text, name, first).len(),
    ensures
        referring_lines(text, name, first)[i].line <= referring_lines(text, name, first)[j].line
            < first + text.len(),
    decreases text.len(),
{
    let front = text.drop_last();
    let before = referring_lines(front, name, first);
    let n = first + text.len() - 1;
    if j < before.len() {
        lemma_lines_in_order(front, name, first, i, j);
    } else {
        lemma_referring_line(words(text.last()), name, n, j - before.len());
        if i < before.len() {
            lemma_lines_in_order(front, name, first, i, i);
        } else {
            lemma_referring_line(words(text.last()), name, n, i - before.len());
        }
    }
}

/// The candidates come in the order of the lines they stand on.
pub proof fn law_candidates_follow_the_lines(
    content: Seq<char>,
    start_line: u32,
    end_line: u32,
    name: Seq<char>,
    i: int,
    j: int,
)
    requires
        0 <= i < j < candidates(content, start_line, end_line, name).len(),
    ensures
        candidates(content, start_line, end_line, name)[i].line <= candidates(
            content,
            start_line,
            end_line,
            name,
        )[j].line,
{
    lemma_lines_in_order(
        lines_from_to(lines(content), start_line, end_line),
        name,
        line_index(start_line) + 1,
        i,
        j,
    );
}

/// The symbols that are kept of the candidates are those that are known as
/// symbols, all of them and in their order: what was found first comes first, and
/// what was found behind it follows.
pub proof fn law_known_candidates_are_kept(
    before: Seq<CalleeView>,
    candidate: CalleeView,
    known_before: Seq<bool>,
    known: bool,
)
    requires
        known_before.len() == before.len(),
    ensures
        known_ones(before.push(candidate), known_before.push(known)) == known_ones(
            before,
            known_before,
        ) + (if known {
            seq![candidate]
        } else {
            seq![]
        }),
        known_ones(seq![], seq![]) == Seq::<CalleeView>::empty(),
{
    let all = before.push(candidate);
    assert(all.drop_last() =~= before);
    lemma_known_of_more(before, known_before, known_before.push(known));
    assert(known_before.push(known)[before.len() as int] == known);
    let rest = known_ones(before, known_before);
    assert(rest.push(candidate) =~= rest + seq![candidate]);
    assert(rest + seq![] =~= rest);
}

proof fn lemma_known_of_more(found: Seq<CalleeView>, a: Seq<bool>, b: Seq<bool>)
    requires
        found.len() <= a.len(),
        found.len() <= b.len(),
        forall|k: int| 0 <= k < found.len() ==> a[k] == b[k],
    ensures
        known_ones(found, a) == known_ones(found, b),
    decreases found.len(),
{
    if found.len() > 0 {
        lemma_known_of_more(found.drop_last(), a, b);
    }
}

} // verus!
