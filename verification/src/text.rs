//! Text as a sequence of characters: searching, splitting into lines,
//! trimming, comparing and numbers in decimal.

use vstd::prelude::*;
use vstd::std_specs::iter::IteratorSpec;

verus! {

/// Appends one character. `String::push` is documented to append the given
/// character to the end of the string; nothing else is claimed of it.
pub assume_specification[ String::push ](s: &mut String, c: char)
    ensures
        final(s)@ == old(s)@.push(c),
;

/// Equality of string slices. `str` compares by content: the result is true
/// exactly when both hold the same characters.
pub assume_specification[ <str as PartialEq>::eq ](a: &str, b: &str) -> (res: bool)
    ensures
        res == (a@ == b@),
;

/// The characters of each string of a list.
pub open spec fn texts(v: Seq<String>) -> Seq<Seq<char>> {
    v.map_values(|s: String| s@)
}

/// `needle` stands in `hay` at position `at`.
pub open spec fn occurs_at<T>(hay: Seq<T>, needle: Seq<T>, at: int) -> bool {
    &&& 0 <= at
    &&& at + needle.len() <= hay.len()
    &&& hay.subrange(at, at + needle.len()) == needle
}

/// `needle` stands somewhere in `hay`.
pub open spec fn occurs<T>(hay: Seq<T>, needle: Seq<T>) -> bool {
    exists|at: int| occurs_at(hay, needle, at)
}

/// `s` begins with `prefix`.
pub open spec fn begins_with(s: Seq<char>, prefix: Seq<char>) -> bool {
    prefix.len() <= s.len() && s.take(prefix.len() as int) == prefix
}

/// The position of the first `c` in `s`, or the length of `s` if there is none.
pub open spec fn first_index(s: Seq<char>, c: char) -> nat
    decreases s.len(),
{
    if s.len() == 0 || s[0] == c {
        0
    } else {
        1 + first_index(s.skip(1), c)
    }
}

/// A line without the carriage return that a `\r\n` ending leaves behind.
pub open spec fn without_cr(line: Seq<char>) -> Seq<char> {
    if line.len() > 0 && line.last() == '\r' {
        line.drop_last()
    } else {
        line
    }
}

/// The lines of a text. Each line ends at `\n` or `\r\n`, which is not part of
/// it; the text after the last line ending is a line if it is not empty.
pub open spec fn lines(s: Seq<char>) -> Seq<Seq<char>>
    decreases s.len(),
{
    if s.len() == 0 {
        seq![]
    } else if first_index(s, '\n') >= s.len() {
        seq![s]
    } else {
        let end = first_index(s, '\n') as int;
        seq![without_cr(s.take(end))] + lines(s.skip(end + 1))
    }
}

/// The characters that Unicode calls white space.
pub open spec fn whitespace(c: char) -> bool {
    ||| '\u{9}' <= c <= '\u{d}'
    ||| c == ' '
    ||| c == '\u{85}'
    ||| c == '\u{a0}'
    ||| c == '\u{1680}'
    ||| '\u{2000}' <= c <= '\u{200a}'
    ||| c == '\u{2028}'
    ||| c == '\u{2029}'
    ||| c == '\u{202f}'
    ||| c == '\u{205f}'
    ||| c == '\u{3000}'
}

/// What a trim takes away: white space, or one given character.
pub open spec fn trimmable(c: char, what: Option<char>) -> bool {
    match what {
        None => whitespace(c),
        Some(q) => c == q,
    }
}

/// `s` without its leading trimmable characters.
pub open spec fn trim_front(s: Seq<char>, what: Option<char>) -> Seq<char>
    decreases s.len(),
{
    if s.len() > 0 && trimmable(s[0], what) {
        trim_front(s.skip(1), what)
    } else {
        s
    }
}

/// `s` without its trailing trimmable characters.
pub open spec fn trim_back(s: Seq<char>, what: Option<char>) -> Seq<char>
    decreases s.len(),
{
    if s.len() > 0 && trimmable(s.last(), what) {
        trim_back(s.drop_last(), what)
    } else {
        s
    }
}

/// `s` without its leading and trailing trimmable characters.
pub open spec fn trimmed(s: Seq<char>, what: Option<char>) -> Seq<char> {
    trim_back(trim_front(s, what), what)
}

/// The position of the first character of `s` that is one of `seps`, or the
/// length of `s` if there is none.
pub open spec fn first_of(s: Seq<char>, seps: Seq<char>) -> nat
    decreases s.len(),
{
    if s.len() == 0 || seps.contains(s[0]) {
        0
    } else {
        1 + first_of(s.skip(1), seps)
    }
}

/// The pieces of `s` between the characters of `seps`; one piece more than
/// there are separators.
pub open spec fn split(s: Seq<char>, seps: Seq<char>) -> Seq<Seq<char>>
    decreases s.len(),
{
    let end = first_of(s, seps) as int;
    if end >= s.len() {
        seq![s]
    } else {
        seq![s.take(end)] + split(s.skip(end + 1), seps)
    }
}

/// The character of a decimal digit.
pub open spec fn digit_char(d: nat) -> char {
    ('0' as u32 + d) as char
}

/// `n` in decimal, without leading zeros.
pub open spec fn decimal(n: nat) -> Seq<char>
    decreases n,
{
    if n < 10 {
        seq![digit_char(n)]
    } else {
        decimal(n / 10).push(digit_char(n % 10))
    }
}

/// `c` is one of the ten decimal digits.
pub open spec fn is_digit(c: char) -> bool {
    '0' <= c <= '9'
}

/// The number that a row of decimal digits stands for.
pub open spec fn decimal_value(s: Seq<char>) -> nat
    decreases s.len(),
{
    if s.len() == 0 {
        0
    } else {
        decimal_value(s.drop_last()) * 10 + (s.last() as nat - '0' as nat) as nat
    }
}

/// The digits of a number that may carry a leading `+`.
pub open spec fn without_plus(s: Seq<char>) -> Seq<char> {
    if s.len() > 0 && s[0] == '+' {
        s.skip(1)
    } else {
        s
    }
}

/// The `u32` that `s` spells in decimal, if it does.
pub open spec fn parsed_u32(s: Seq<char>) -> Option<u32> {
    let digits = without_plus(s);
    if digits.len() > 0 && (forall|i: int| 0 <= i < digits.len() ==> is_digit(#[trigger] digits[i]))
        && decimal_value(digits) <= u32::MAX {
        Some(decimal_value(digits) as u32)
    } else {
        None
    }
}

/// `a` stands before `b` in the order of code points.
pub open spec fn text_before(a: Seq<char>, b: Seq<char>) -> bool
    decreases a.len(),
{
    if b.len() == 0 {
        false
    } else if a.len() == 0 {
        true
    } else if a[0] == b[0] {
        text_before(a.skip(1), b.skip(1))
    } else {
        a[0] < b[0]
    }
}

/// The characters of `s` as a vector.
pub fn chars_of(s: &str) -> (res: Vec<char>)
    ensures
        res@ == s@,
{
    let mut res: Vec<char> = Vec::new();
    let mut it = s.chars();
    loop
        invariant
            res@ + it.remaining() == s@,
            it.decrease() is Some,
            it.obeys_prophetic_iter_laws(),
        ensures
            res@ == s@,
        decreases it.decrease()->0,
    {
        match it.next() {
            Some(c) => {
                res.push(c);
            },
            None => {
                break;
            },
        }
    }
    res
}

/// The string of the characters `chars[from..to]`.
pub fn text_between(chars: &[char], from: usize, to: usize) -> (res: String)
    requires
        from <= to <= chars@.len(),
    ensures
        res@ == chars@.subrange(from as int, to as int),
{
    let mut res = String::new();
    let mut i = from;
    while i < to
        invariant
            from <= i <= to <= chars@.len(),
            res@ == chars@.subrange(from as int, i as int),
        decreases to - i,
    {
        res.push(chars[i]);
        i = i + 1;
        assert(chars@.subrange(from as int, i as int) == chars@.subrange(
            from as int,
            i - 1,
        ).push(chars@[i - 1]));
    }
    res
}

/// The position of the first `c` at or after `from`, or the length.
pub fn index_from(chars: &[char], from: usize, c: char) -> (res: usize)
    requires
        from <= chars@.len(),
    ensures
        res == from + first_index(chars@.skip(from as int), c),
        from <= res <= chars@.len(),
{
    let mut i = from;
    while i < chars.len()
        invariant
            from <= i <= chars@.len(),
            from + first_index(chars@.skip(from as int), c) == i + first_index(
                chars@.skip(i as int),
                c,
            ),
        ensures
            i == from + first_index(chars@.skip(from as int), c),
            from <= i <= chars@.len(),
        decreases chars@.len() - i,
    {
        assert(chars@.skip(i as int)[0] == chars@[i as int]);
        if chars[i] == c {
            break;
        }
        assert(chars@.skip(i as int).skip(1) == chars@.skip(i + 1));
        i = i + 1;
    }
    i
}

/// The lines of `text`, each without its line ending.
pub fn split_lines(text: &str) -> (res: Vec<String>)
    ensures
        texts(res@) == lines(text@),
{
    let chars = chars_of(text);
    let mut res: Vec<String> = Vec::new();
    let mut start: usize = 0;
    assert(chars@.skip(0) == chars@);
    assert(texts(res@) =~= seq![]);
    while start < chars.len()
        invariant
            start <= chars@.len(),
            chars@ == text@,
            texts(res@) + lines(chars@.skip(start as int)) == lines(text@),
        decreases chars@.len() - start,
    {
        let ghost rest = chars@.skip(start as int);
        let ghost before = res@;
        let end = index_from(&chars, start, '\n');
        if end == chars.len() {
            let line = text_between(&chars, start, end);
            assert(line@ == rest);
            res.push(line);
            start = end;
            assert(texts(res@) =~= texts(before) + seq![rest]);
            assert(chars@.skip(start as int).len() == 0);
            assert(texts(res@) + lines(chars@.skip(start as int)) =~= texts(res@));
        } else {
            let cut = if end > start && chars[end - 1] == '\r' {
                end - 1
            } else {
                end
            };
            let line = text_between(&chars, start, cut);
            assert(rest.take(end - start) =~= chars@.subrange(start as int, end as int));
            assert(line@ =~= without_cr(rest.take(end - start)));
            res.push(line);
            assert(rest.skip(end - start + 1) =~= chars@.skip(end + 1));
            assert(texts(res@) =~= texts(before) + seq![line@]);
            assert(texts(res@) + lines(chars@.skip(end + 1)) =~= texts(before) + (seq![line@]
                + lines(chars@.skip(end + 1))));
            start = end + 1;
        }
    }
    assert(chars@.skip(start as int).len() == 0);
    assert(texts(res@) + lines(chars@.skip(start as int)) =~= texts(res@));
    res
}

/// Whether `c` is white space.
pub fn is_whitespace(c: char) -> (res: bool)
    ensures
        res == whitespace(c),
{
    ('\u{9}' <= c && c <= '\u{d}') || c == ' ' || c == '\u{85}' || c == '\u{a0}' || c == '\u{1680}' || (
    '\u{2000}' <= c && c <= '\u{200a}') || c == '\u{2028}' || c == '\u{2029}' || c == '\u{202f}' || c
        == '\u{205f}' || c == '\u{3000}'
}

fn is_trimmable(c: char, what: Option<char>) -> (res: bool)
    ensures
        res == trimmable(c, what),
{
    match what {
        None => is_whitespace(c),
        Some(q) => c == q,
    }
}

/// The bounds of `chars[from..to]` once both ends are trimmed.
fn trim_bounds(chars: &[char], from: usize, to: usize, what: Option<char>) -> (res: (usize, usize))
    requires
        from <= to <= chars@.len(),
    ensures
        from <= res.0 <= res.1 <= to,
        trim_front(chars@.subrange(from as int, to as int), what) == chars@.subrange(
            res.0 as int,
            to as int,
        ),
        trimmed(chars@.subrange(from as int, to as int), what) == chars@.subrange(
            res.0 as int,
            res.1 as int,
        ),
{
    let mut start = from;
    while start < to
        invariant
            from <= start <= to <= chars@.len(),
            trim_front(chars@.subrange(from as int, to as int), what) == trim_front(
                chars@.subrange(start as int, to as int),
                what,
            ),
        ensures
            from <= start <= to <= chars@.len(),
            trim_front(chars@.subrange(from as int, to as int), what) == chars@.subrange(
                start as int,
                to as int,
            ),
        decreases to - start,
    {
        if !is_trimmable(chars[start], what) {
            break;
        }
        assert(chars@.subrange(start as int, to as int).skip(1) =~= chars@.subrange(
            start + 1,
            to as int,
        ));
        start = start + 1;
    }
    let ghost front = chars@.subrange(start as int, to as int);
    let mut end = to;
    while end > start
        invariant
            from <= start <= end <= to <= chars@.len(),
            trim_back(front, what) == trim_back(
                chars@.subrange(start as int, end as int),
                what,
            ),
        ensures
            from <= start <= end <= to <= chars@.len(),
            trim_back(front, what) == chars@.subrange(start as int, end as int),
        decreases end - start,
    {
        if !is_trimmable(chars[end - 1], what) {
            break;
        }
        assert(chars@.subrange(start as int, end as int).drop_last() =~= chars@.subrange(
            start as int,
            end - 1,
        ));
        end = end - 1;
    }
    (start, end)
}

/// `s` without white space, or without one given character, at both ends.
pub fn trim(s: &str, what: Option<char>) -> (res: String)
    ensures
        res@ == trimmed(s@, what),
{
    let chars = chars_of(s);
    let (from, to) = trim_bounds(&chars, 0, chars.len(), what);
    assert(chars@.subrange(0, chars@.len() as int) =~= s@);
    text_between(&chars, from, to)
}

/// `s` without leading white space.
pub fn trim_start(s: &str) -> (res: String)
    ensures
        res@ == trim_front(s@, None),
{
    let chars = chars_of(s);
    let (from, _to) = trim_bounds(&chars, 0, chars.len(), None);
    assert(chars@.subrange(0, chars@.len() as int) =~= s@);
    text_between(&chars, from, chars.len())
}

/// The position of the first character of `seps` at or after `from`, or the
/// length.
fn separator_from(chars: &[char], from: usize, seps: &[char]) -> (res: usize)
    requires
        from <= chars@.len(),
    ensures
        res == from + first_of(chars@.skip(from as int), seps@),
        from <= res <= chars@.len(),
{
    let mut i = from;
    while i < chars.len()
        invariant
            from <= i <= chars@.len(),
            from + first_of(chars@.skip(from as int), seps@) == i + first_of(
                chars@.skip(i as int),
                seps@,
            ),
        ensures
            i == from + first_of(chars@.skip(from as int), seps@),
            from <= i <= chars@.len(),
        decreases chars@.len() - i,
    {
        assert(chars@.skip(i as int)[0] == chars@[i as int]);
        if has_char(seps, chars[i]) {
            break;
        }
        assert(chars@.skip(i as int).skip(1) == chars@.skip(i + 1));
        i = i + 1;
    }
    i
}

/// Whether `c` is one of `set`.
pub fn has_char(set: &[char], c: char) -> (res: bool)
    ensures
        res == set@.contains(c),
{
    let mut i: usize = 0;
    while i < set.len()
        invariant
            i <= set@.len(),
            forall|j: int| 0 <= j < i ==> set@[j] != c,
        decreases set@.len() - i,
    {
        if set[i] == c {
            return true;
        }
        i = i + 1;
    }
    false
}

/// The pieces of `s` between the characters of `seps`.
pub fn split_text(s: &str, seps: &[char]) -> (res: Vec<String>)
    ensures
        texts(res@) == split(s@, seps@),
{
    let chars = chars_of(s);
    let mut res: Vec<String> = Vec::new();
    let mut start: usize = 0;
    assert(chars@.skip(0) == chars@);
    assert(texts(res@) =~= seq![]);
    assert(texts(res@) + split(s@, seps@) =~= split(s@, seps@));
    loop
        invariant
            start <= chars@.len(),
            chars@ == s@,
            texts(res@) + split(chars@.skip(start as int), seps@) == split(s@, seps@),
        decreases chars@.len() - start,
    {
        let ghost rest = chars@.skip(start as int);
        let ghost before = res@;
        let end = separator_from(&chars, start, seps);
        let piece = text_between(&chars, start, end);
        assert(rest.take(end - start) =~= chars@.subrange(start as int, end as int));
        res.push(piece);
        assert(texts(res@) =~= texts(before) + seq![piece@]);
        if end == chars.len() {
            assert(piece@ =~= rest);
            return res;
        }
        assert(rest.skip(end - start + 1) =~= chars@.skip(end + 1));
        assert(texts(res@) + split(chars@.skip(end + 1), seps@) =~= texts(before) + (seq![piece@]
            + split(chars@.skip(end + 1), seps@)));
        start = end + 1;
    }
}

/// Whether `needle` stands in `hay` at position `at`.
pub fn stands_at(hay: &[char], needle: &[char], at: usize) -> (res: bool)
    requires
        at + needle@.len() <= hay@.len(),
    ensures
        res == occurs_at(hay@, needle@, at as int),
{
    let mut i: usize = 0;
    while i < needle.len()
        invariant
            i <= needle@.len(),
            at + needle@.len() <= hay.len(),
            forall|j: int| 0 <= j < i ==> hay@[at + j] == needle@[j],
        decreases needle@.len() - i,
    {
        if hay[at + i] != needle[i] {
            assert(hay@.subrange(at as int, at + needle@.len())[i as int] != needle@[i as int]);
            return false;
        }
        i = i + 1;
    }
    assert(hay@.subrange(at as int, at + needle@.len()) =~= needle@);
    true
}

/// Whether `needle` stands anywhere in `hay`.
pub fn contains(hay: &str, needle: &str) -> (res: bool)
    ensures
        res == occurs(hay@, needle@),
{
    let h = chars_of(hay);
    let n = chars_of(needle);
    if n.len() > h.len() {
        return false;
    }
    let last = h.len() - n.len();
    let mut at: usize = 0;
    loop
        invariant
            h@ == hay@,
            n@ == needle@,
            last == h@.len() - n@.len(),
            at <= last,
            forall|j: int| 0 <= j < at ==> !occurs_at(h@, n@, j),
        decreases last - at,
    {
        if stands_at(&h, &n, at) {
            return true;
        }
        if at == last {
            return false;
        }
        at = at + 1;
    }
}

/// The rest of `s` after `prefix`, if `s` begins with it.
pub fn strip_prefix(s: &str, prefix: &str) -> (res: Option<String>)
    ensures
        match res {
            Some(rest) => begins_with(s@, prefix@) && rest@ == s@.skip(prefix@.len() as int),
            None => !begins_with(s@, prefix@),
        },
{
    let h = chars_of(s);
    let n = chars_of(prefix);
    if n.len() <= h.len() && stands_at(&h, &n, 0) {
        assert(h@.subrange(0, n@.len() as int) =~= s@.take(n@.len() as int));
        assert(h@.subrange(n@.len() as int, h@.len() as int) =~= s@.skip(n@.len() as int));
        Some(text_between(&h, n.len(), h.len()))
    } else {
        proof {
            if n@.len() <= h@.len() {
                assert(h@.subrange(0, n@.len() as int) =~= s@.take(n@.len() as int));
            }
        }
        None
    }
}

/// The character of the digit `d`.
fn char_of_digit(d: u64) -> (res: char)
    requires
        d < 10,
    ensures
        res == digit_char(d as nat),
{
    (48u8 + d as u8) as char
}

/// `n` in decimal.
pub fn to_decimal(n: u64) -> (res: String)
    ensures
        res@ == decimal(n as nat),
    decreases n,
{
    if n < 10 {
        let mut res = String::new();
        res.push(char_of_digit(n));
        assert(res@ =~= seq![digit_char(n as nat)]);
        res
    } else {
        let mut res = to_decimal(n / 10);
        res.push(char_of_digit(n % 10));
        res
    }
}

/// Digits in front only make the number larger.
proof fn lemma_decimal_value_grows(s: Seq<char>, k: int)
    requires
        0 <= k <= s.len(),
        forall|i: int| 0 <= i < s.len() ==> is_digit(#[trigger] s[i]),
    ensures
        decimal_value(s.take(k)) <= decimal_value(s),
    decreases s.len() - k,
{
    if k < s.len() {
        lemma_decimal_value_grows(s, k + 1);
        assert(s.take(k + 1).drop_last() =~= s.take(k));
        assert(s.take(k + 1).last() == s[k]);
        assert(is_digit(s[k]));
    } else {
        assert(s.take(k) =~= s);
    }
}

/// The decimal digits of a number spell it.
pub proof fn lemma_decimal_is_parsed(n: nat)
    ensures
        decimal(n).len() > 0,
        forall|i: int| 0 <= i < decimal(n).len() ==> is_digit(#[trigger] decimal(n)[i]),
        decimal_value(decimal(n)) == n,
    decreases n,
{
    let d = n % 10;
    assert(digit_char(d) as nat == '0' as nat + d);
    if n < 10 {
        let s = decimal(n);
        assert(s.drop_last() =~= seq![]);
        assert(decimal_value(s.drop_last()) == 0);
    } else {
        lemma_decimal_is_parsed(n / 10);
        let s = decimal(n);
        assert(s.drop_last() =~= decimal(n / 10));
        assert forall|i: int| 0 <= i < s.len() implies is_digit(#[trigger] s[i]) by {
            if i < s.len() - 1 {
                assert(s[i] == decimal(n / 10)[i]);
            }
        }
    }
}

/// The `u32` that `s` spells in decimal, if it does.
pub fn parse_u32(s: &str) -> (res: Option<u32>)
    ensures
        res == parsed_u32(s@),
{
    let chars = chars_of(s);
    let from: usize = if chars.len() > 0 && chars[0] == '+' {
        1
    } else {
        0
    };
    let ghost digits = without_plus(s@);
    assert(digits =~= chars@.skip(from as int));
    if from == chars.len() {
        return None;
    }
    let mut value: u64 = 0;
    let mut i = from;
    while i < chars.len()
        invariant
            from <= i <= chars@.len(),
            digits == chars@.skip(from as int),
            digits == without_plus(s@),
            chars@ == s@,
            value <= u32::MAX,
            value == decimal_value(digits.take(i - from)),
            forall|j: int| 0 <= j < i - from ==> is_digit(#[trigger] digits[j]),
        decreases chars@.len() - i,
    {
        let c = chars[i];
        assert(digits[i - from] == c);
        if !('0' <= c && c <= '9') {
            assert(!is_digit(digits[i - from]));
            return None;
        }
        value = value * 10 + (c as u64 - 48);
        assert(digits.take(i - from + 1).drop_last() =~= digits.take(i - from));
        if value > 0xffff_ffff {
            proof {
                if forall|j: int| 0 <= j < digits.len() ==> is_digit(#[trigger] digits[j]) {
                    lemma_decimal_value_grows(digits, i - from + 1);
                }
            }
            return None;
        }
        i = i + 1;
    }
    assert(digits.take(i - from) =~= digits);
    Some(value as u32)
}

/// Whether `a` stands before `b` in the order of code points.
pub fn is_before(a: &str, b: &str) -> (res: bool)
    ensures
        res == text_before(a@, b@),
{
    let mut x = a.chars();
    let mut y = b.chars();
    loop
        invariant
            text_before(a@, b@) == text_before(x.remaining(), y.remaining()),
            x.decrease() is Some,
            x.obeys_prophetic_iter_laws(),
            y.decrease() is Some,
            y.obeys_prophetic_iter_laws(),
        decreases x.decrease()->0,
    {
        match (x.next(), y.next()) {
            (_, None) => {
                return false;
            },
            (None, Some(_)) => {
                return true;
            },
            (Some(c), Some(d)) => {
                if c != d {
                    return c < d;
                }
            },
        }
    }
}

/// No text stands before itself.
pub proof fn lemma_text_before_irreflexive(a: Seq<char>)
    ensures
        !text_before(a, a),
    decreases a.len(),
{
    if a.len() > 0 {
        lemma_text_before_irreflexive(a.skip(1));
    }
}

/// Of two different texts one stands before the other.
pub proof fn lemma_text_before_total(a: Seq<char>, b: Seq<char>)
    ensures
        a == b || text_before(a, b) || text_before(b, a),
    decreases a.len(),
{
    if a.len() > 0 && b.len() > 0 && a[0] == b[0] {
        lemma_text_before_total(a.skip(1), b.skip(1));
        if a.skip(1) == b.skip(1) {
            assert(a =~= seq![a[0]] + a.skip(1));
            assert(b =~= seq![b[0]] + b.skip(1));
        }
    } else if a.len() == 0 && b.len() == 0 {
        assert(a =~= b);
    }
}

/// The order of texts is transitive.
pub proof fn lemma_text_before_transitive(a: Seq<char>, b: Seq<char>, c: Seq<char>)
    requires
        text_before(a, b),
        text_before(b, c),
    ensures
        text_before(a, c),
    decreases a.len(),
{
    if a.len() > 0 && a[0] == b[0] && b[0] == c[0] {
        lemma_text_before_transitive(a.skip(1), b.skip(1), c.skip(1));
    }
}

/// Text order is asymmetric.
pub proof fn lemma_text_before_asymmetric(a: Seq<char>, b: Seq<char>)
    requires
        text_before(a, b),
    ensures
        !text_before(b, a),
        a != b,
{
    if text_before(b, a) {
        lemma_text_before_transitive(a, b, a);
    }
    lemma_text_before_irreflexive(a);
}

proof fn lemma_first_index_behind(a: Seq<char>, c: char, rest: Seq<char>)
    requires
        !a.contains(c),
    ensures
        first_index(a.push(c) + rest, c) == a.len(),
        first_index(a, c) == a.len(),
    decreases a.len(),
{
    let all = a.push(c) + rest;
    if a.len() == 0 {
        assert(all[0] == c);
    } else {
        let tail = a.skip(1);
        assert(a.contains(a[0]));
        assert(!tail.contains(c)) by {
            if tail.contains(c) {
                assert(a[tail.index_of(c) + 1] == c);
            }
        }
        lemma_first_index_behind(tail, c, rest);
        assert(all[0] == a[0]);
        assert(all.skip(1) =~= tail.push(c) + rest);
    }
}

/// A text is cut into lines at its newlines, and a carriage return right before a
/// newline goes with it: the first line is what stands before the first newline,
/// and the other lines are those of what stands behind it. What stands behind the
/// last newline is a line only if there is anything.
pub proof fn law_lines(a: Seq<char>, rest: Seq<char>)
    requires
        !a.contains('\n'),
    ensures
        lines(a.push('\r').push('\n') + rest) == seq![a] + lines(rest),
        a.len() == 0 || a.last() != '\r' ==> lines(a.push('\n') + rest) == seq![a] + lines(rest),
        a.len() > 0 ==> lines(a) == seq![a],
        lines(seq![]) == Seq::<Seq<char>>::empty(),
{
    let with_return = a.push('\r');
    assert(!with_return.contains('\n')) by {
        if with_return.contains('\n') {
            let k = with_return.index_of('\n');
            assert(a[k] == '\n');
        }
    }
    lemma_first_index_behind(a, '\n', rest);
    lemma_first_index_behind(with_return, '\n', rest);
    let s = a.push('\n') + rest;
    assert(s.take(a.len() as int) =~= a);
    assert(s.skip((a.len() + 1) as int) =~= rest);
    let t = with_return.push('\n') + rest;
    assert(t.take(with_return.len() as int) =~= with_return);
    assert(t.skip((with_return.len() + 1) as int) =~= rest);
    assert(with_return.drop_last() =~= a);
}

/// The code points of white space.
pub proof fn law_white_space(c: char)
    ensures
        whitespace(c) <==> {
            let n = c as u32;
            9 <= n <= 13 || n == 32 || n == 133 || n == 160 || n == 5760 || 8192 <= n <= 8202 || n
                == 8232 || n == 8233 || n == 8239 || n == 8287 || n == 12288
        },
{
}

proof fn lemma_trim_front(front: Seq<char>, s: Seq<char>, what: Option<char>)
    requires
        forall|k: int| 0 <= k < front.len() ==> trimmable(#[trigger] front[k], what),
        s.len() > 0 ==> !trimmable(s[0], what),
    ensures
        trim_front(front + s, what) == s,
    decreases front.len(),
{
    let all = front + s;
    if front.len() == 0 {
        assert(all =~= s);
    } else {
        let tail = front.skip(1);
        assert forall|k: int| 0 <= k < tail.len() implies trimmable(#[trigger] tail[k], what) by {
            assert(tail[k] == front[k + 1]);
        }
        lemma_trim_front(tail, s, what);
        assert(all[0] == front[0]);
        assert(all.skip(1) =~= tail + s);
    }
}

proof fn lemma_trim_back(s: Seq<char>, back: Seq<char>, what: Option<char>)
    requires
        forall|k: int| 0 <= k < back.len() ==> trimmable(#[trigger] back[k], what),
        s.len() > 0 ==> !trimmable(s.last(), what),
    ensures
        trim_back(s + back, what) == s,
    decreases back.len(),
{
    let all = s + back;
    if back.len() == 0 {
        assert(all =~= s);
    } else {
        let head = back.drop_last();
        assert forall|k: int| 0 <= k < head.len() implies trimmable(#[trigger] head[k], what) by {
            assert(head[k] == back[k]);
        }
        lemma_trim_back(s, head, what);
        assert(all.last() == back.last());
        assert(all.drop_last() =~= s + head);
    }
}

/// A trim takes away what is trimmable on both sides, as far as it goes, and
/// nothing else: white space, or the given character.
pub proof fn law_trims(front: Seq<char>, s: Seq<char>, back: Seq<char>, what: Option<char>)
    requires
        forall|k: int|
            0 <= k < front.len() ==> match what {
                Some(c) => #[trigger] front[k] == c,
                None => whitespace(front[k]),
            },
        forall|k: int|
            0 <= k < back.len() ==> match what {
                Some(c) => #[trigger] back[k] == c,
                None => whitespace(back[k]),
            },
        s.len() > 0 ==> match what {
            Some(c) => s[0] != c && s.last() != c,
            None => !whitespace(s[0]) && !whitespace(s.last()),
        },
    ensures
        trimmed(front + s + back, what) == s,
        s.len() > 0 ==> trim_front(front + s + back, what) == s + back,
{
    if s.len() > 0 {
        assert(front + s + back =~= front + (s + back));
        lemma_trim_front(front, s + back, what);
        lemma_trim_back(s, back, what);
    } else {
        let all = front + back;
        assert(front + s + back =~= all + s);
        lemma_trim_front(all, s, what);
        assert(trim_back(s, what) =~= s);
    }
}

proof fn lemma_first_of_behind(a: Seq<char>, seps: Seq<char>, rest: Seq<char>)
    requires
        forall|k: int| 0 <= k < a.len() ==> !seps.contains(#[trigger] a[k]),
        rest.len() > 0 ==> seps.contains(rest[0]),
    ensures
        first_of(a + rest, seps) == a.len(),
    decreases a.len(),
{
    let all = a + rest;
    if a.len() == 0 {
        assert(all =~= rest);
    } else {
        let tail = a.skip(1);
        assert forall|k: int| 0 <= k < tail.len() implies !seps.contains(#[trigger] tail[k]) by {
            assert(tail[k] == a[k + 1]);
        }
        lemma_first_of_behind(tail, seps, rest);
        assert(all[0] == a[0]);
        assert(all.skip(1) =~= tail + rest);
    }
}

/// A text is split at each of the separators: its first part is what stands before
/// the first one, and the other parts are those of what stands behind it. A text
/// without a separator is one part.
pub proof fn law_splits(a: Seq<char>, sep: char, rest: Seq<char>, seps: Seq<char>)
    requires
        forall|k: int| 0 <= k < a.len() ==> !seps.contains(#[trigger] a[k]),
        seps.contains(sep),
    ensures
        split(a.push(sep) + rest, seps) == seq![a] + split(rest, seps),
        split(a, seps) == seq![a],
{
    lemma_first_of_behind(a, seps, seq![]);
    assert(a + Seq::<char>::empty() =~= a);
    let behind = seq![sep] + rest;
    lemma_first_of_behind(a, seps, behind);
    let s = a.push(sep) + rest;
    assert(s =~= a + behind);
    assert(s.take(a.len() as int) =~= a);
    assert(s.skip((a.len() + 1) as int) =~= rest);
}

/// A text holds another if and only if that one stands between what is before it
/// and what is behind it, and begins with another if there is nothing before it.
pub proof fn law_occurs(before: Seq<char>, needle: Seq<char>, behind: Seq<char>, hay: Seq<char>)
    ensures
        occurs(before + needle + behind, needle),
        begins_with(needle + behind, needle),
        occurs(hay, needle) ==> exists|a: Seq<char>, b: Seq<char>| hay == #[trigger] (a + needle + b),
        begins_with(hay, needle) ==> hay == needle + hay.skip(needle.len() as int),
{
    let all = before + needle + behind;
    assert(all.subrange(before.len() as int, (before.len() + needle.len()) as int) =~= needle);
    assert(occurs_at(all, needle, before.len() as int));
    assert((needle + behind).take(needle.len() as int) =~= needle);
    if occurs(hay, needle) {
        let at = choose|at: int| occurs_at(hay, needle, at);
        let a = hay.take(at);
        let b = hay.skip(at + needle.len());
        assert(hay =~= a + needle + b);
    }
    if begins_with(hay, needle) {
        assert(hay =~= needle + hay.skip(needle.len() as int));
    }
}

proof fn lemma_no_zero_in_front(n: nat)
    requires
        n > 0,
    ensures
        decimal(n).len() > 0,
        decimal(n)[0] != '0',
    decreases n,
{
    if n >= 10 {
        lemma_no_zero_in_front(n / 10);
        assert(decimal(n)[0] == decimal(n / 10)[0]);
    } else {
        assert(digit_char(n) as nat == '0' as nat + n);
    }
}

/// A number is written in decimal digits without a zero in front, and reading what
/// was written gives the number back, also behind a plus sign.
pub proof fn law_numbers_round_trip(n: u32)
    ensures
        parsed_u32(decimal(n as nat)) == Some(n),
        parsed_u32(seq!['+'] + decimal(n as nat)) == Some(n),
        decimal(n as nat).len() > 0,
        forall|i: int|
            0 <= i < decimal(n as nat).len() ==> '0' <= #[trigger] decimal(n as nat)[i] <= '9',
        n > 0 ==> decimal(n as nat)[0] != '0',
        n < 10 ==> decimal(n as nat).len() == 1,
{
    lemma_decimal_is_parsed(n as nat);
    if n > 0 {
        lemma_no_zero_in_front(n as nat);
    }
    let s = decimal(n as nat);
    assert(is_digit(s[0]));
    assert(s[0] != '+');
    let t = seq!['+'] + s;
    assert(t.skip(1) =~= s);
}

/// Reading digits: a text that ends in another digit is ten times as much and that
/// digit more, unless that is too much. A text with anything but digits in it is
/// no number, and neither is one without a digit.
pub proof fn law_reads_digit_by_digit(s: Seq<char>, c: char)
    ensures
        '0' <= c <= '9' ==> parsed_u32(seq![c]) == Some((c as u32 - 48) as u32),
        parsed_u32(s) matches Some(n) ==> parsed_u32(s.push(c)) == if '0' <= c <= '9' && n * 10 + (
        c as u32 - 48) <= u32::MAX {
            Some((n * 10 + (c as u32 - 48)) as u32)
        } else {
            None::<u32>
        },
        !('0' <= c <= '9') ==> parsed_u32(s.push(c)) is None,
        parsed_u32(seq![]) is None,
{
    let one = seq![c];
    assert(one.drop_last() =~= seq![]);
    reveal_with_fuel(decimal_value, 2);
    let t = s.push(c);
    let digits = without_plus(s);
    if s.len() > 0 && s[0] == '+' {
        assert(t.skip(1) =~= digits.push(c));
    }
    if digits.len() > 0 {
        assert(without_plus(t) =~= digits.push(c));
    }
    if parsed_u32(s) is Some {
        let more = digits.push(c);
        assert(more.drop_last() =~= digits);
        assert(more[digits.len() as int] == c);
        if '0' <= c <= '9' {
            assert forall|i: int| 0 <= i < more.len() implies is_digit(#[trigger] more[i]) by {
                if i < digits.len() {
                    assert(more[i] == digits[i]);
                }
            }
        } else {
            assert(!is_digit(more[digits.len() as int]));
        }
    }
    if !('0' <= c <= '9') {
        let more = without_plus(t);
        if more.len() > 0 {
            assert(more[more.len() - 1] == c);
            assert(!is_digit(more[more.len() - 1]));
        }
    }
}

/// One text comes before another if they are the same up to a place where either
/// the first ends and the second does not, or the first has the lesser character.
pub proof fn law_text_order(a: Seq<char>, b: Seq<char>)
    ensures
        text_before(a, b) <==> exists|k: int|
            0 <= k <= a.len() && k < b.len() && #[trigger] a.take(k) == b.take(k) && (k == a.len()
                || a[k] < b[k]),
    decreases a.len(),
{
    if b.len() > 0 {
        if a.len() == 0 {
            assert(a.take(0) =~= b.take(0));
        } else {
            let (x, y) = (a.skip(1), b.skip(1));
            law_text_order(x, y);
            if text_before(a, b) {
                if a[0] == b[0] {
                    let k = choose|k: int|
                        0 <= k <= x.len() && k < y.len() && #[trigger] x.take(k) == y.take(k) && (k
                            == x.len() || x[k] < y[k]);
                    assert(a.take(k + 1) =~= b.take(k + 1)) by {
                        assert forall|i: int| 0 <= i < k + 1 implies a[i] == b[i] by {
                            if i > 0 {
                                assert(x.take(k)[i - 1] == y.take(k)[i - 1]);
                            }
                        }
                    }
                    if k < x.len() {
                        assert(x[k] == a[k + 1] && y[k] == b[k + 1]);
                    }
                } else {
                    assert(a.take(0) =~= b.take(0));
                }
            }
            if exists|k: int|
                0 <= k <= a.len() && k < b.len() && #[trigger] a.take(k) == b.take(k) && (k
                    == a.len() || a[k] < b[k]) {
                let k = choose|k: int|
                    0 <= k <= a.len() && k < b.len() && #[trigger] a.take(k) == b.take(k) && (k
                        == a.len() || a[k] < b[k]);
                if k > 0 {
                    assert(a.take(k)[0] == b.take(k)[0]);
                    assert(x.take(k - 1) =~= y.take(k - 1)) by {
                        assert forall|i: int| 0 <= i < k - 1 implies x[i] == y[i] by {
                            assert(a.take(k)[i + 1] == b.take(k)[i + 1]);
                        }
                    }
                    if k < a.len() {
                        assert(x[k - 1] == a[k] && y[k - 1] == b[k]);
                    }
                }
            }
        }
    }
}

} // verus!
