//! The matcher behind `grep`: a literal, with or without regard to case, or a
//! regular expression.

use vstd::prelude::*;
use vstd::string::StringExecFns;
use vstd::utf8::encode_utf8;

use crate::bytes::ascii_lower;
use crate::bytes::ascii_upper;
use crate::bytes::disjoint_occurrences;
use crate::bytes::folds_at;
use crate::bytes::lemma_first_hit_is;
use crate::bytes::lemma_scan;
use crate::bytes::lemma_scan_covers;
use crate::bytes::lower;
use crate::bytes::memmem_find_all;
use crate::bytes::past;
use crate::bytes::positions;
use crate::bytes::same_letter;
use crate::bytes::scan;
use crate::bytes::upper;
use crate::commands::grep::Args;
use crate::commands::grep::GrepError;
use crate::text::chars_of;
use crate::text::occurs_at;

verus! {

/// Compares `a` with as many bytes of `b`, the case of ASCII letters left aside.
pub fn ascii_case_eq(a: &[u8], b: &[u8]) -> (res: bool)
    requires
        a@.len() <= b@.len(),
    ensures
        res == (forall|j: int| 0 <= j < a@.len() ==> same_letter(#[trigger] a@[j], b@[j])),
{
    let mut i: usize = 0;
    while i < a.len()
        invariant
            i <= a@.len() <= b@.len(),
            forall|j: int| 0 <= j < i ==> same_letter(#[trigger] a@[j], b@[j]),
        decreases a@.len() - i,
    {
        if a[i] != b[i] && lower(a[i]) != lower(b[i]) {
            assert(!same_letter(a@[i as int], b@[i as int]));
            return false;
        }
        i = i + 1;
    }
    true
}

/// A compiled regular expression over bytes.
#[verifier::external_type_specification]
#[verifier::external_body]
pub struct ExRegex(regex::bytes::Regex);

/// What a compiled regular expression was compiled from: its pattern, and
/// whether it ignores case. It is a multi-line one in either case.
pub uninterp spec fn regex_source(re: regex::bytes::Regex) -> (Seq<char>, bool);

/// The message with which a pattern is refused, or `None` where it compiles.
pub uninterp spec fn regex_refusal(pattern: Seq<char>, case_insensitive: bool) -> Option<Seq<char>>;

/// The successive non-overlapping matches of a pattern in a haystack, each as
/// its start and end.
pub uninterp spec fn regex_matches(
    pattern: Seq<char>,
    case_insensitive: bool,
    haystack: Seq<u8>,
) -> Seq<(int, int)>;

/// Spans as mathematical integers.
pub open spec fn spans(v: Seq<(usize, usize)>) -> Seq<(int, int)> {
    v.map_values(|p: (usize, usize)| (p.0 as int, p.1 as int))
}

/// `regex::bytes::RegexBuilder`, with `multi_line` on and `case_insensitive`
/// as given: compiles `pattern`, or says why it cannot. Whether it can, and
/// the message, depend on the pattern and the flag alone.
#[verifier::external_body]
pub(crate) fn regex_build(pattern: &str, case_insensitive: bool) -> (res: Result<
    regex::bytes::Regex,
    String,
>)
    ensures
        match res {
            Ok(re) => regex_refusal(pattern@, case_insensitive) is None && regex_source(re) == (
                pattern@,
                case_insensitive,
            ),
            Err(detail) => regex_refusal(pattern@, case_insensitive) == Some(detail@),
        },
{
    regex::bytes::RegexBuilder::new(pattern)
        .case_insensitive(case_insensitive)
        .multi_line(true)
        .build()
        .map_err(|e| e.to_string())
}

/// `regex::bytes::Regex::find_iter`, collected: the start and end of each
/// match, which depend on the pattern, its flag and the haystack alone. A
/// match never ends before it starts, nor behind the haystack.
#[verifier::external_body]
pub(crate) fn regex_find_all(re: &regex::bytes::Regex, haystack: &[u8]) -> (res: Vec<
    (usize, usize),
>)
    ensures
        spans(res@) == regex_matches(regex_source(*re).0, regex_source(*re).1, haystack@),
        forall|i: int|
            0 <= i < res@.len() ==> (#[trigger] res@[i]).0 <= res@[i].1 <= haystack@.len(),
{
    re.find_iter(haystack).map(|m| (m.start(), m.end())).collect()
}

/// `regex::bytes::Regex::is_match`: true if and only if the expression matches
/// somewhere in the haystack.
#[verifier::external_body]
pub(crate) fn regex_is_match(re: &regex::bytes::Regex, haystack: &[u8]) -> (res: bool)
    ensures
        res == (regex_matches(regex_source(*re).0, regex_source(*re).1, haystack@).len() > 0),
{
    re.is_match(haystack)
}

/// A character that means something in a regular expression.
pub open spec fn meaningful(c: char) -> bool {
    "\\.+*?()|[]{}^$#&-~"@.contains(c)
}

/// The expression that matches `s` literally: with a backslash before each
/// character that means something.
pub open spec fn regex_escaped(s: Seq<char>) -> Seq<char>
    decreases s.len(),
{
    if s.len() == 0 {
        seq![]
    } else if meaningful(s.last()) {
        regex_escaped(s.drop_last()).push('\\').push(s.last())
    } else {
        regex_escaped(s.drop_last()).push(s.last())
    }
}

/// `regex::escape`: puts a backslash before each character that means
/// something in a regular expression.
pub assume_specification[ regex::escape ](pattern: &str) -> (res: String)
    ensures
        res@ == regex_escaped(pattern@),
;

/// Whether Unicode calls a character upper case.
pub uninterp spec fn uppercase(c: char) -> bool;

/// `char::is_uppercase`: Unicode's `Uppercase` property. Of the ASCII
/// characters it holds for `A` to `Z`.
pub assume_specification[ char::is_uppercase ](c: char) -> (res: bool)
    ensures
        res == uppercase(c),
        c < '\u{80}' ==> res == ('A' <= c <= 'Z'),
;

/// The lower-case form of a text.
pub uninterp spec fn lowercased(s: Seq<char>) -> Seq<char>;

/// The lower-case form of an ASCII character.
pub open spec fn lower_char(c: char) -> char {
    if 'A' <= c <= 'Z' {
        (c as u32 + 32) as char
    } else {
        c
    }
}

/// `str::to_lowercase`: the text with every character replaced by its
/// lower-case form. On an ASCII text that is the ASCII lower-case form.
pub assume_specification[ str::to_lowercase ](s: &str) -> (res: String)
    ensures
        res@ == lowercased(s@),
        vstd::utf8::is_ascii_chars(s@) ==> res@ == s@.map_values(|c: char| lower_char(c)),
;

/// The characters that make a pattern look like a regular expression.
pub open spec fn regex_metacharacter(c: char) -> bool {
    ||| c == '.'
    ||| c == '+'
    ||| c == '*'
    ||| c == '?'
    ||| c == '^'
    ||| c == '$'
    ||| c == '['
    ||| c == '('
    ||| c == '|'
    ||| c == '\\'
}

/// A pattern with a metacharacter in it.
pub open spec fn regex_like(s: Seq<char>) -> bool {
    exists|i: int| 0 <= i < s.len() && regex_metacharacter(#[trigger] s[i])
}

/// Whether the text looks like a regular expression.
pub fn looks_like_regex(s: &str) -> (res: bool)
    ensures
        res == regex_like(s@),
{
    let chars = chars_of(s);
    let mut i: usize = 0;
    while i < chars.len()
        invariant
            i <= chars@.len(),
            chars@ == s@,
            forall|j: int| 0 <= j < i ==> !regex_metacharacter(#[trigger] chars@[j]),
        decreases chars@.len() - i,
    {
        let c = chars[i];
        if c == '.' || c == '+' || c == '*' || c == '?' || c == '^' || c == '$' || c == '[' || c
            == '(' || c == '|' || c == '\\' {
            assert(regex_metacharacter(s@[i as int]));
            return true;
        }
        i = i + 1;
    }
    false
}

/// A text with an upper-case character in it.
pub open spec fn has_upper(s: Seq<char>) -> bool {
    exists|i: int| 0 <= i < s.len() && uppercase(#[trigger] s[i])
}

/// Whether the text holds an upper-case character.
pub fn has_uppercase(s: &str) -> (res: bool)
    ensures
        res == has_upper(s@),
{
    let chars = chars_of(s);
    let mut i: usize = 0;
    while i < chars.len()
        invariant
            i <= chars@.len(),
            chars@ == s@,
            forall|j: int| 0 <= j < i ==> !uppercase(#[trigger] chars@[j]),
        decreases chars@.len() - i,
    {
        let c = chars[i];
        if c.is_uppercase() {
            assert(uppercase(s@[i as int]));
            return true;
        }
        i = i + 1;
    }
    false
}

/// `needle` stands in `hay` at `at` for a search without regard to the case of
/// ASCII letters. An empty needle stands nowhere.
pub open spec fn letters_at(hay: Seq<u8>, needle: Seq<u8>, at: int) -> bool {
    needle.len() > 0 && folds_at(hay, needle, at)
}

/// Finds one occurrence of a literal after another, without regard to the case
/// of ASCII letters.
pub struct CaseInsensitiveLiteralIter<'a> {
    pub haystack: &'a [u8],
    pub needle: Vec<u8>,
    pub pos: usize,
}

impl<'a> CaseInsensitiveLiteralIter<'a> {
    /// The search stands inside the haystack.
    pub open spec fn wf(self) -> bool {
        self.pos <= self.haystack@.len()
    }

    /// The start and end of the next occurrence. The search goes on one byte behind
    /// its start, so that the one after it may overlap it.
    pub fn next(&mut self) -> (res: Option<(usize, usize)>)
        requires
            old(self).wf(),
        ensures
            final(self).wf(),
            final(self).haystack == old(self).haystack,
            final(self).needle == old(self).needle,
            final(self).pos >= old(self).pos,
            match res {
                Some(m) => {
                    &&& m.0 >= old(self).pos
                    &&& letters_at(old(self).haystack@, old(self).needle@, m.0 as int)
                    &&& forall|q: int|
                        old(self).pos <= q < m.0 ==> !letters_at(
                            old(self).haystack@,
                            old(self).needle@,
                            q,
                        )
                    &&& m.1 == m.0 + old(self).needle@.len()
                    &&& final(self).pos == m.0 + 1
                },
                None => forall|q: int|
                    old(self).pos <= q ==> !letters_at(
                        old(self).haystack@,
                        old(self).needle@,
                        q,
                    ),
            },
    {
        if self.needle.len() == 0 || self.haystack.len() < self.needle.len() {
            return None;
        }
        let first_lo = lower(self.needle[0]);
        let first_hi = upper(self.needle[0]);
        let max_pos = self.haystack.len() - self.needle.len();
        let hay = self.haystack;
        let ghost n = self.needle@;
        let start = self.pos;
        let mut from = self.pos;
        let tail = vstd::slice::slice_subrange(self.needle.as_slice(), 1, self.needle.len());
        while from < hay.len()
            invariant
                *self == *old(self),
                hay == self.haystack,
                n == self.needle@,
                0 < n.len() <= hay.len(),
                max_pos == hay@.len() - n.len(),
                first_lo == ascii_lower(n[0]),
                first_hi == ascii_upper(n[0]),
                tail@ == n.skip(1),
                start == old(self).pos,
                start <= from <= hay@.len(),
                forall|q: int| start <= q < from ==> !letters_at(hay@, n, q),
            decreases hay@.len() - from,
        {
            let rest = vstd::slice::slice_subrange(hay, from, hay.len());
            match memchr::memchr2(first_lo, first_hi, rest) {
                None => {
                    assert forall|q: int| start <= q implies !letters_at(hay@, n, q) by {
                        if from <= q < hay@.len() {
                            assert(rest@[q - from] == hay@[q + 0]);
                        }
                    }
                    self.pos = self.haystack.len();
                    return None;
                },
                Some(off) => {
                    let abs = from + off;
                    assert(rest@[off as int] == hay@[abs as int]);
                    assert forall|q: int| start <= q < abs implies !letters_at(hay@, n, q) by {
                        if from <= q {
                            assert(rest@[q - from] == hay@[q + 0]);
                        }
                    }
                    if abs > max_pos {
                        return None;
                    }
                    let candidate = vstd::slice::slice_subrange(hay, abs + 1, abs + self.needle.len());
                    let same = ascii_case_eq(candidate, tail);
                    proof {
                        if same {
                            assert forall|j: int| 0 <= j < n.len() implies same_letter(
                                #[trigger] hay@[abs + j],
                                n[j],
                            ) by {
                                if j > 0 {
                                    assert(same_letter(candidate@[j - 1], tail@[j - 1]));
                                }
                            }
                        } else {
                            let j = choose|j: int|
                                0 <= j < candidate@.len() && !same_letter(
                                    #[trigger] candidate@[j],
                                    tail@[j],
                                );
                            assert(!same_letter(hay@[abs + (j + 1)], n[j + 1]));
                        }
                    }
                    if same {
                        self.pos = abs + 1;
                        return Some((abs, abs + self.needle.len()));
                    }
                    from = abs + 1;
                },
            }
        }
        self.pos = self.haystack.len();
        None
    }
}

/// A literal to look for, or a regular expression.
#[derive(Debug)]
pub enum Matcher {
    Literal { needle: Vec<u8>, case_insensitive: bool },
    Regex(regex::bytes::Regex),
}

/// The spans of matches of the given length.
pub open spec fn spans_of(starts: Seq<int>, len: int) -> Seq<(int, int)> {
    starts.map_values(|p: int| (p, p + len))
}

/// The positions of all occurrences of `needle` without regard to the case of
/// ASCII letters, from the left. They may overlap.
pub open spec fn letter_occurrences(hay: Seq<u8>, needle: Seq<u8>) -> Seq<int> {
    scan(|p: int| letters_at(hay, needle, p), 1, 0, hay.len() as int + 1)
}

/// The matches of a literal in `hay`: all of them where case does not matter, and
/// those that do not overlap where it does.
pub open spec fn literal_matches(needle: Seq<u8>, case_insensitive: bool, hay: Seq<u8>) -> Seq<
    (int, int),
> {
    spans_of(
        if case_insensitive {
            letter_occurrences(hay, needle)
        } else {
            disjoint_occurrences(hay, needle)
        },
        needle.len() as int,
    )
}

/// Whether case matters: `ignore_case` says no, `case_sensitive` says yes, and
/// else an upper-case character in the pattern decides.
pub open spec fn case_matters(args: Args) -> bool {
    !args.ignore_case && (args.case_sensitive || has_upper(args.needle@))
}

/// Whether the pattern is read as a regular expression.
pub open spec fn is_expression(args: Args) -> bool {
    args.regex || (!args.fixed_strings && regex_like(args.needle@))
}

/// Whether the search runs a regular expression: the pattern is one, or whole
/// words are asked for.
pub open spec fn wants_regex(args: Args) -> bool {
    is_expression(args) || args.word_regexp
}

/// The regular expression to compile: the pattern, taken literally where it is
/// not read as an expression, and between word boundaries where whole words
/// are asked for.
pub open spec fn regex_pattern(args: Args) -> Seq<char> {
    let pattern = if is_expression(args) {
        args.needle@
    } else {
        regex_escaped(args.needle@)
    };
    if args.word_regexp {
        "\\b(?:"@ + pattern + ")\\b"@
    } else {
        pattern
    }
}

/// The bytes of the literal to look for.
pub open spec fn literal_bytes(args: Args) -> Seq<u8> {
    if case_matters(args) {
        encode_utf8(args.needle@)
    } else {
        encode_utf8(lowercased(args.needle@))
    }
}

/// The start and end of each match that a search for `args` finds in `hay`.
pub open spec fn matches_for(args: Args, hay: Seq<u8>) -> Seq<(int, int)> {
    if wants_regex(args) {
        regex_matches(regex_pattern(args), !case_matters(args), hay)
    } else {
        literal_matches(literal_bytes(args), !case_matters(args), hay)
    }
}

/// How the matcher for `args` is called.
pub open spec fn mode_for(args: Args) -> Seq<char> {
    if wants_regex(args) {
        "regex"@
    } else {
        "literal"@
    }
}

/// The matcher is the one that `args` asks for.
pub open spec fn serves(m: Matcher, args: Args) -> bool {
    match m {
        Matcher::Literal { needle, case_insensitive } => {
            &&& !wants_regex(args)
            &&& needle@ == literal_bytes(args)
            &&& case_insensitive == !case_matters(args)
        },
        Matcher::Regex(re) => {
            &&& wants_regex(args)
            &&& regex_refusal(regex_pattern(args), !case_matters(args)) is None
            &&& regex_source(re) == (regex_pattern(args), !case_matters(args))
        },
    }
}

impl Matcher {
    /// The start and end of each match in `hay`, from the left.
    pub open spec fn matches(self, hay: Seq<u8>) -> Seq<(int, int)> {
        match self {
            Matcher::Literal { needle, case_insensitive } => literal_matches(
                needle@,
                case_insensitive,
                hay,
            ),
            Matcher::Regex(re) => regex_matches(regex_source(re).0, regex_source(re).1, hay),
        }
    }

    /// The matcher that `args` asks for, and how it is called.
    pub fn build(args: &Args) -> (res: Result<(Matcher, &'static str), GrepError>)
        ensures
            match res {
                Ok((m, mode)) => serves(m, *args) && mode@ == mode_for(*args),
                Err(e) => {
                    &&& wants_regex(*args)
                    &&& e matches GrepError::InvalidRegex { needle, detail }
                    &&& needle@ == args.needle@
                    &&& regex_refusal(regex_pattern(*args), !case_matters(*args)) == Some(detail@)
                },
            },
    {
        let sensitive = if args.ignore_case {
            false
        } else {
            args.case_sensitive || has_uppercase(args.needle.as_str())
        };
        let expression = args.regex || (!args.fixed_strings && looks_like_regex(
            args.needle.as_str(),
        ));
        if expression || args.word_regexp {
            let bare = if expression {
                args.needle.clone()
            } else {
                regex::escape(args.needle.as_str())
            };
            let pattern = if args.word_regexp {
                String::from_str("\\b(?:").concat(bare.as_str()).concat(")\\b")
            } else {
                bare
            };
            match regex_build(pattern.as_str(), !sensitive) {
                Ok(re) => Ok((Matcher::Regex(re), "regex")),
                Err(detail) => Err(
                    GrepError::InvalidRegex { needle: args.needle.clone(), detail },
                ),
            }
        } else {
            let needle = if sensitive {
                vstd::slice::slice_to_vec(args.needle.as_str().as_bytes())
            } else {
                vstd::slice::slice_to_vec(args.needle.as_str().to_lowercase().as_str().as_bytes())
            };
            Ok((Matcher::Literal { needle, case_insensitive: !sensitive }, "literal"))
        }
    }

    /// The start and end of each match in `haystack`, from the left.
    pub fn find_iter(&self, haystack: &[u8]) -> (res: Vec<(usize, usize)>)
        ensures
            spans(res@) == self.matches(haystack@),
            forall|i: int|
                0 <= i < res@.len() ==> (#[trigger] res@[i]).0 <= res@[i].1 <= haystack@.len(),
    {
        match self {
            Matcher::Literal { needle, case_insensitive } => if *case_insensitive {
                let ghost hit = |p: int| letters_at(haystack@, needle@, p);
                let ghost to = haystack@.len() as int + 1;
                let ghost step: int = 1;
                let mut res: Vec<(usize, usize)> = Vec::new();
                let mut iter = CaseInsensitiveLiteralIter {
                    haystack,
                    needle: needle.clone(),
                    pos: 0,
                };
                assert(spans(res@) + spans_of(scan(hit, step, 0, to), needle@.len() as int)
                    =~= spans_of(scan(hit, step, 0, to), needle@.len() as int));
                loop
                    invariant
                        iter.wf(),
                        iter.haystack == haystack,
                        iter.needle@ == needle@,
                        hit == (|p: int| letters_at(haystack@, needle@, p)),
                        step == 1,
                        to == haystack@.len() as int + 1,
                        spans(res@) + spans_of(
                            scan(hit, step, iter.pos as int, to),
                            needle@.len() as int,
                        ) == spans_of(scan(hit, step, 0, to), needle@.len() as int),
                        forall|i: int|
                            0 <= i < res@.len() ==> (#[trigger] res@[i]).0 <= res@[i].1
                                <= haystack@.len(),
                        self.matches(haystack@) == spans_of(
                            scan(hit, step, 0, to),
                            needle@.len() as int,
                        ),
                    decreases haystack@.len() + 1 - iter.pos,
                {
                    let ghost from = iter.pos as int;
                    let ghost before = res@;
                    match iter.next() {
                        Some(m) => {
                            proof {
                                assert(hit(m.0 as int));
                                assert forall|q: int| from <= q < m.0 implies !#[trigger] hit(q) by {
                                    assert(!letters_at(haystack@, needle@, q));
                                }
                                lemma_first_hit_is(hit, from, to, m.0 as int);
                            }
                            res.push(m);
                            proof {
                                let len = needle@.len() as int;
                                let tail = scan(hit, step, m.0 + step, to);
                                assert(scan(hit, step, from, to) == seq![m.0 as int] + tail);
                                assert(spans(res@) =~= spans(before) + seq![(m.0 as int, m.1 as int)]);
                                assert(spans_of(seq![m.0 as int] + tail, len) =~= seq![
                                    (m.0 as int, m.1 as int),
                                ] + spans_of(tail, len));
                                assert(spans(res@) + spans_of(tail, len) =~= spans(before) + (seq![
                                    (m.0 as int, m.1 as int),
                                ] + spans_of(tail, len)));
                            }
                        },
                        None => {
                            proof {
                                assert forall|q: int| from <= q < to implies !#[trigger] hit(q) by {
                                    assert(!letters_at(haystack@, needle@, q));
                                }
                                lemma_first_hit_is(hit, from, to, to);
                                assert(scan(hit, step, from, to) =~= seq![]);
                                assert(spans(res@) + spans_of(
                                    scan(hit, step, from, to),
                                    needle@.len() as int,
                                ) =~= spans(res@));
                            }
                            return res;
                        },
                    }
                }
            } else {
                let starts = memmem_find_all(haystack, needle.as_slice());
                let ghost hit = |p: int| occurs_at(haystack@, needle@, p);
                proof {
                    lemma_scan(
                        hit,
                        past(needle@),
                        0,
                        haystack@.len() as int + 1,
                    );
                    assert forall|k: int| 0 <= k < starts@.len() implies #[trigger] starts@[k]
                        + needle@.len() <= haystack.len() by {
                        assert(positions(starts@)[k] == starts@[k]);
                        assert(hit(disjoint_occurrences(haystack@, needle@)[k]));
                    }
                }
                let mut res: Vec<(usize, usize)> = Vec::new();
                let mut i: usize = 0;
                while i < starts.len()
                    invariant
                        i <= starts@.len(),
                        res@.len() == i,
                        positions(starts@) == disjoint_occurrences(haystack@, needle@),
                        forall|k: int|
                            0 <= k < starts@.len() ==> #[trigger] starts@[k] + needle@.len()
                                <= haystack.len(),
                        forall|k: int|
                            0 <= k < i ==> (#[trigger] res@[k]).0 == starts@[k] && res@[k].1
                                == starts@[k] + needle@.len(),
                    decreases starts@.len() - i,
                {
                    res.push((starts[i], starts[i] + needle.len()));
                    i = i + 1;
                }
                assert(spans(res@) =~= spans_of(
                    disjoint_occurrences(haystack@, needle@),
                    needle@.len() as int,
                )) by {
                    assert forall|k: int| 0 <= k < res@.len() implies spans(res@)[k] == (
                        disjoint_occurrences(haystack@, needle@)[k],
                        disjoint_occurrences(haystack@, needle@)[k] + needle@.len(),
                    ) by {
                        assert(positions(starts@)[k] == starts@[k]);
                    }
                    assert(positions(starts@).len() == starts@.len());
                }
                res
            },
            Matcher::Regex(re) => regex_find_all(re, haystack),
        }
    }

    /// Whether there is a match in `haystack`.
    pub fn is_match(&self, haystack: &[u8]) -> (res: bool)
        ensures
            res == (self.matches(haystack@).len() > 0),
    {
        match self {
            Matcher::Literal { needle, case_insensitive } => if *case_insensitive {
                let ghost hit = |p: int| letters_at(haystack@, needle@, p);
                let mut iter = CaseInsensitiveLiteralIter {
                    haystack,
                    needle: needle.clone(),
                    pos: 0,
                };
                let found = iter.next();
                proof {
                    lemma_scan(hit, 1, 0, haystack@.len() as int + 1);
                    match found {
                        Some(m) => {
                            assert(hit(m.0 as int));
                        },
                        None => {
                            assert forall|q: int| 0 <= q < haystack@.len() + 1 implies !#[trigger] hit(
                                q,
                            ) by {
                                assert(!letters_at(haystack@, needle@, q));
                            }
                        },
                    }
                }
                found.is_some()
            } else {
                let ghost hit = |p: int| occurs_at(haystack@, needle@, p);
                let found = memchr::memmem::find(haystack, needle.as_slice());
                proof {
                    lemma_scan(
                        hit,
                        past(needle@),
                        0,
                        haystack@.len() as int + 1,
                    );
                    match found {
                        Some(p) => {
                            assert(hit(p as int));
                        },
                        None => {
                            assert forall|q: int| 0 <= q < haystack@.len() + 1 implies !#[trigger] hit(
                                q,
                            ) by {
                                assert(!occurs_at(haystack@, needle@, q));
                            }
                        },
                    }
                }
                found.is_some()
            },
            Matcher::Regex(re) => regex_is_match(re, haystack),
        }
    }
}

/// The text holds one of the ten characters that make a pattern look like a
/// regular expression.
pub open spec fn holds_metacharacter(s: Seq<char>) -> bool {
    exists|k: int| 0 <= k < s.len() && ".+*?^$[(|\\"@.contains(#[trigger] s[k])
}

proof fn lemma_metacharacters(s: Seq<char>)
    ensures
        regex_like(s) <==> holds_metacharacter(s),
{
    let all = ".+*?^$[(|\\"@;
    reveal_strlit(".+*?^$[(|\\");
    assert(all[0] == '.' && all[1] == '+' && all[2] == '*' && all[3] == '?' && all[4] == '^' && all[5]
        == '$' && all[6] == '[' && all[7] == '(' && all[8] == '|' && all[9] == '\\');
    assert(all.len() == 10);
    assert forall|c: char| #[trigger] all.contains(c) <==> regex_metacharacter(c) by {
        if all.contains(c) {
            let i = all.index_of(c);
            assert(all[i] == c);
        }
    }
    if regex_like(s) {
        let k = choose|k: int| 0 <= k < s.len() && regex_metacharacter(#[trigger] s[k]);
        assert(all.contains(s[k]));
    }
    if holds_metacharacter(s) {
        let k = choose|k: int| 0 <= k < s.len() && all.contains(#[trigger] s[k]);
        assert(regex_metacharacter(s[k]));
    }
}

/// The matches of a search with regard to case for a plain text.
pub proof fn lemma_exact_matches(args: Args, hay: Seq<u8>)
    requires
        !args.ignore_case,
        args.case_sensitive || exists|k: int|
            0 <= k < args.needle@.len() && uppercase(#[trigger] args.needle@[k]),
        !args.regex,
        !args.word_regexp,
        args.fixed_strings || !holds_metacharacter(args.needle@),
    ensures
        forall|i: int|
            0 <= i < matches_for(args, hay).len() ==> {
                let (p, q) = #[trigger] matches_for(args, hay)[i];
                0 <= p <= q <= hay.len() && hay.subrange(p, q) == encode_utf8(args.needle@)
            },
        forall|i: int, j: int|
            0 <= i < j < matches_for(args, hay).len() ==> (#[trigger] matches_for(args, hay)[i]).1 <= (
            #[trigger] matches_for(args, hay)[j]).0,
        forall|p: int, q: int|
            0 <= p < q <= hay.len() && #[trigger] hay.subrange(p, q) == encode_utf8(args.needle@)
                ==> exists|i: int|
                0 <= i < matches_for(args, hay).len() && (#[trigger] matches_for(args, hay)[i]).0 <= p
                    < matches_for(args, hay)[i].1,
{
    lemma_metacharacters(args.needle@);
    let n = encode_utf8(args.needle@);
    let hit = |p: int| occurs_at(hay, n, p);
    let to = hay.len() as int + 1;
    let starts = scan(hit, past(n), 0, to);
    lemma_scan(hit, past(n), 0, to);
    let found = matches_for(args, hay);
    assert(found == spans_of(starts, n.len() as int));
    assert forall|i: int| 0 <= i < found.len() implies {
        let (p, q) = #[trigger] found[i];
        0 <= p <= q <= hay.len() && hay.subrange(p, q) == n
    } by {
        assert(hit(starts[i]));
    }
    assert forall|i: int, j: int| 0 <= i < j < found.len() implies (#[trigger] found[i]).1 <= (
    #[trigger] found[j]).0 by {
        assert(starts[i] + past(n) <= starts[j]);
    }
    assert forall|p: int, q: int|
        0 <= p < q <= hay.len() && #[trigger] hay.subrange(p, q) == n implies exists|i: int|
        0 <= i < found.len() && (#[trigger] found[i]).0 <= p < found[i].1 by {
        assert(q == p + n.len());
        assert(hit(p));
        lemma_scan_covers(hit, past(n), 0, to, p);
        let i = choose|i: int|
            0 <= i < starts.len() && #[trigger] starts[i] <= p < starts[i] + past(n);
        assert(found[i].0 <= p < found[i].1);
    }
}

/// A search with regard to case for a plain text: `case_sensitive` is set or the
/// text holds an upper-case character, and `ignore_case` is not set. Each match
/// is the text byte for byte, no two overlap, and wherever the text stands there
/// is a match that covers the place where it starts.
pub proof fn law_exact_matches(args: Args, m: Matcher, hay: Seq<u8>)
    requires
        serves(m, args),
        !args.ignore_case,
        args.case_sensitive || exists|k: int|
            0 <= k < args.needle@.len() && uppercase(#[trigger] args.needle@[k]),
        !args.regex,
        !args.word_regexp,
        args.fixed_strings || !holds_metacharacter(args.needle@),
    ensures
        m.matches(hay) == matches_for(args, hay),
        forall|i: int|
            0 <= i < m.matches(hay).len() ==> {
                let (p, q) = #[trigger] m.matches(hay)[i];
                0 <= p <= q <= hay.len() && hay.subrange(p, q) == encode_utf8(args.needle@)
            },
        forall|i: int, j: int|
            0 <= i < j < m.matches(hay).len() ==> (#[trigger] m.matches(hay)[i]).1 <= (
            #[trigger] m.matches(hay)[j]).0,
        forall|p: int, q: int|
            0 <= p < q <= hay.len() && #[trigger] hay.subrange(p, q) == encode_utf8(args.needle@)
                ==> exists|i: int|
                0 <= i < m.matches(hay).len() && (#[trigger] m.matches(hay)[i]).0 <= p
                    < m.matches(hay)[i].1,
{
    lemma_metacharacters(args.needle@);
    lemma_exact_matches(args, hay);
    let found = m.matches(hay);
    assert(found == matches_for(args, hay));
    assert forall|p: int, q: int|
        0 <= p < q <= hay.len() && #[trigger] hay.subrange(p, q) == encode_utf8(
            args.needle@,
        ) implies exists|i: int|
        0 <= i < found.len() && (#[trigger] found[i]).0 <= p < found[i].1 by {
        let i = choose|i: int|
            0 <= i < matches_for(args, hay).len() && (#[trigger] matches_for(args, hay)[i]).0 <= p
                < matches_for(args, hay)[i].1;
        assert(found[i].0 <= p < found[i].1);
    }
}

/// The bytes of `hay` from `p` on are `text` but for the case of ASCII letters.
pub open spec fn reads_at(hay: Seq<u8>, text: Seq<u8>, p: int) -> bool {
    &&& 0 <= p
    &&& p + text.len() <= hay.len()
    &&& forall|k: int|
        0 <= k < text.len() ==> {
            let a = hay[p + k];
            let b = #[trigger] text[k];
            a == b || (65 <= a <= 90 && b == a + 32) || (65 <= b <= 90 && a == b + 32)
        }
}

proof fn lemma_reads_at(hay: Seq<u8>, text: Seq<u8>, p: int)
    requires
        text.len() > 0,
    ensures
        letters_at(hay, text, p) <==> reads_at(hay, text, p),
{
    if letters_at(hay, text, p) {
        assert forall|k: int| 0 <= k < text.len() implies {
            let a = hay[p + k];
            let b = #[trigger] text[k];
            a == b || (65 <= a <= 90 && b == a + 32) || (65 <= b <= 90 && a == b + 32)
        } by {
            assert(same_letter(hay[p + k], text[k]));
        }
    }
    if reads_at(hay, text, p) {
        assert forall|k: int| 0 <= k < text.len() implies same_letter(
            #[trigger] hay[p + k],
            text[k],
        ) by {
            let b = text[k];
        }
    }
}

/// A search without regard to case for a plain text: `ignore_case` is set, or
/// `case_sensitive` is not and the text holds no upper-case character. It finds
/// the lower-case form of the text wherever that stands but for the case of ASCII
/// letters, each place once and in order, and nothing else.
pub proof fn law_matches_in_any_case(args: Args, m: Matcher, hay: Seq<u8>)
    requires
        serves(m, args),
        args.ignore_case || (!args.case_sensitive && forall|k: int|
            0 <= k < args.needle@.len() ==> !uppercase(#[trigger] args.needle@[k])),
        !args.regex,
        !args.word_regexp,
        args.fixed_strings || !holds_metacharacter(args.needle@),
        encode_utf8(lowercased(args.needle@)).len() > 0,
    ensures
        m.matches(hay) == matches_for(args, hay),
        forall|i: int|
            0 <= i < m.matches(hay).len() ==> reads_at(
                hay,
                encode_utf8(lowercased(args.needle@)),
                (#[trigger] m.matches(hay)[i]).0,
            ) && m.matches(hay)[i].1 == m.matches(hay)[i].0 + encode_utf8(
                lowercased(args.needle@),
            ).len(),
        forall|i: int, j: int|
            0 <= i < j < m.matches(hay).len() ==> (#[trigger] m.matches(hay)[i]).0 < (
            #[trigger] m.matches(hay)[j]).0,
        forall|p: int|
            #[trigger] reads_at(hay, encode_utf8(lowercased(args.needle@)), p) ==> exists|i: int|
                0 <= i < m.matches(hay).len() && (#[trigger] m.matches(hay)[i]).0 == p,
{
    lemma_metacharacters(args.needle@);
    let n = encode_utf8(lowercased(args.needle@));
    let hit = |p: int| letters_at(hay, n, p);
    let to = hay.len() as int + 1;
    let starts = scan(hit, 1, 0, to);
    lemma_scan(hit, 1, 0, to);
    let found = m.matches(hay);
    assert(found == spans_of(starts, n.len() as int));
    assert forall|i: int| 0 <= i < found.len() implies reads_at(hay, n, (#[trigger] found[i]).0)
        && found[i].1 == found[i].0 + n.len() by {
        assert(hit(starts[i]));
        lemma_reads_at(hay, n, starts[i]);
    }
    assert forall|i: int, j: int| 0 <= i < j < found.len() implies (#[trigger] found[i]).0 < (
    #[trigger] found[j]).0 by {
        assert(starts[i] + 1 <= starts[j]);
    }
    assert forall|p: int| #[trigger] reads_at(hay, n, p) implies exists|i: int|
        0 <= i < found.len() && (#[trigger] found[i]).0 == p by {
        lemma_reads_at(hay, n, p);
        assert(hit(p));
        lemma_scan_covers(hit, 1, 0, to, p);
        let i = choose|i: int| 0 <= i < starts.len() && #[trigger] starts[i] <= p < starts[i] + 1;
        assert(found[i].0 == p);
    }
}

/// A pattern is run as a regular expression, as it stands, if the caller asks for
/// that or if it holds a character that makes it look like one and is not to be
/// taken literally. A whole-word search puts it between word boundaries, and a
/// plain text is escaped for that. Case is left aside if `ignore_case` is set,
/// or if `case_sensitive` is not and the pattern holds no upper-case character.
pub proof fn law_expressions(args: Args, m: Matcher, hay: Seq<u8>)
    requires
        serves(m, args),
        args.regex || args.word_regexp || (!args.fixed_strings && holds_metacharacter(
            args.needle@,
        )),
    ensures
        mode_for(args) == "regex"@,
        m.matches(hay) == matches_for(args, hay),
        ({
            let any_case = args.ignore_case || (!args.case_sensitive && !(exists|k: int|
                0 <= k < args.needle@.len() && uppercase(#[trigger] args.needle@[k])));
            let as_it_stands = args.regex || (!args.fixed_strings && holds_metacharacter(
                args.needle@,
            ));
            m.matches(hay) == regex_matches(
                if as_it_stands && !args.word_regexp {
                    args.needle@
                } else if as_it_stands {
                    "\\b(?:"@ + args.needle@ + ")\\b"@
                } else {
                    "\\b(?:"@ + regex_escaped(args.needle@) + ")\\b"@
                },
                any_case,
                hay,
            )
        }),
{
    lemma_metacharacters(args.needle@);
}

/// A plain text that is not looked for as a whole word is looked for literally.
pub proof fn law_plain_texts_are_literals(args: Args)
    requires
        !args.regex,
        !args.word_regexp,
        args.fixed_strings || !holds_metacharacter(args.needle@),
    ensures
        mode_for(args) == "literal"@,
{
    lemma_metacharacters(args.needle@);
}

} // verus!
