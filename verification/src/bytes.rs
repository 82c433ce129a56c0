//! Searching bytes: exact and ASCII case-insensitive occurrences, and the
//! positions at which a scan finds them.

use vstd::prelude::*;

use crate::text::occurs;
use crate::text::occurs_at;

verus! {

/// `memchr::memmem::find`: the position of the first occurrence of `needle`
/// in `haystack`, or `None` when it does not occur. An empty needle occurs at
/// the start of every haystack.
pub assume_specification[ memchr::memmem::find ](haystack: &[u8], needle: &[u8]) -> (res: Option<
    usize,
>)
    ensures
        match res {
            Some(p) => occurs_at(haystack@, needle@, p as int) && forall|q: int|
                0 <= q < p ==> !occurs_at(haystack@, needle@, q),
            None => !occurs(haystack@, needle@),
        },
;

/// `memchr::memchr2`: the position of the first byte of `haystack` that is one
/// of the two given, or `None` when there is none.
pub assume_specification[ memchr::memchr2 ](needle1: u8, needle2: u8, haystack: &[u8]) -> (res:
    Option<usize>)
    ensures
        match res {
            Some(p) => {
                &&& p < haystack@.len()
                &&& haystack@[p as int] == needle1 || haystack@[p as int] == needle2
                &&& forall|q: int|
                    0 <= q < p ==> haystack@[q] != needle1 && haystack@[q] != needle2
            },
            None => forall|q: int|
                0 <= q < haystack@.len() ==> haystack@[q] != needle1 && haystack@[q] != needle2,
        },
;

/// The first position in `from..to` that `hit` accepts, or `to`.
pub open spec fn first_hit(hit: spec_fn(int) -> bool, from: int, to: int) -> int
    decreases to - from,
{
    if from >= to {
        to
    } else if hit(from) {
        from
    } else {
        first_hit(hit, from + 1, to)
    }
}

/// What a scan of `from..to` reports: the first position that `hit` accepts,
/// then the first at least `step` further on, and so forth.
pub open spec fn scan(hit: spec_fn(int) -> bool, step: int, from: int, to: int) -> Seq<int>
    decreases (if from < to { to - from } else { 0 }),
{
    let p = first_hit(hit, from, to);
    if step < 1 || p < from || p >= to {
        seq![]
    } else {
        seq![p] + scan(hit, step, p + step, to)
    }
}

/// Positions as mathematical integers.
pub open spec fn positions(v: Seq<usize>) -> Seq<int> {
    v.map_values(|p: usize| p as int)
}

/// How far a scan for `needle` moves past a match: past all of it.
pub open spec fn past(needle: Seq<u8>) -> int {
    if needle.len() == 0 {
        1
    } else {
        needle.len() as int
    }
}

/// The positions of the non-overlapping occurrences of `needle`, from the left.
pub open spec fn disjoint_occurrences(hay: Seq<u8>, needle: Seq<u8>) -> Seq<int> {
    scan(|p: int| occurs_at(hay, needle, p), past(needle), 0, hay.len() as int + 1)
}

/// `memchr::memmem::find_iter`, collected: the positions of the
/// non-overlapping occurrences of `needle` in `haystack`, from the left. After
/// each match the search goes on behind it, after an empty one a byte further.
#[verifier::external_body]
pub(crate) fn memmem_find_all(haystack: &[u8], needle: &[u8]) -> (res: Vec<usize>)
    ensures
        positions(res@) == disjoint_occurrences(haystack@, needle@),
{
    memchr::memmem::find_iter(haystack, needle).collect()
}

/// `memchr::memchr_iter`, collected: the positions at which `needle` stands in
/// `haystack`, all of them and in ascending order.
#[verifier::external_body]
pub(crate) fn memchr_all(needle: u8, haystack: &[u8]) -> (res: Vec<usize>)
    ensures
        positions(res@) == scan(
            |p: int| p < haystack@.len() && haystack@[p] == needle,
            1,
            0,
            haystack@.len() as int,
        ),
{
    memchr::memchr_iter(needle, haystack).collect()
}

/// A hit is found at or after the start, and only where there is one.
pub proof fn lemma_first_hit(hit: spec_fn(int) -> bool, from: int, to: int)
    requires
        from <= to,
    ensures
        from <= first_hit(hit, from, to) <= to,
        forall|q: int| from <= q < first_hit(hit, from, to) ==> !#[trigger] hit(q),
        first_hit(hit, from, to) < to ==> hit(first_hit(hit, from, to)),
    decreases to - from,
{
    if from < to && !hit(from) {
        lemma_first_hit(hit, from + 1, to);
    }
}

/// A position with no hit before it is the first.
pub proof fn lemma_first_hit_is(hit: spec_fn(int) -> bool, from: int, to: int, p: int)
    requires
        from <= p <= to,
        forall|q: int| from <= q < p ==> !#[trigger] hit(q),
        p < to ==> hit(p),
    ensures
        first_hit(hit, from, to) == p,
{
    lemma_first_hit(hit, from, to);
    let f = first_hit(hit, from, to);
    if f < p {
        assert(!hit(f));
    } else if p < f {
        assert(hit(p));
    }
}

/// What a scan reports lies in its range, is a hit, and ascends by the step.
pub proof fn lemma_scan(hit: spec_fn(int) -> bool, step: int, from: int, to: int)
    requires
        from <= to,
        step >= 1,
    ensures
        forall|i: int|
            0 <= i < scan(hit, step, from, to).len() ==> from <= #[trigger] scan(
                hit,
                step,
                from,
                to,
            )[i] < to && hit(scan(hit, step, from, to)[i]),
        forall|i: int, j: int|
            0 <= i < j < scan(hit, step, from, to).len() ==> #[trigger] scan(hit, step, from, to)[i]
                + step <= #[trigger] scan(hit, step, from, to)[j],
        scan(hit, step, from, to).len() == 0 <==> forall|q: int| from <= q < to ==> !#[trigger] hit(q),
    decreases to - from,
{
    let s = scan(hit, step, from, to);
    lemma_first_hit(hit, from, to);
    let p = first_hit(hit, from, to);
    if p < to {
        assert(hit(p));
        let rest = scan(hit, step, p + step, to);
        assert(s == seq![p] + rest);
        if p + step <= to {
            lemma_scan(hit, step, p + step, to);
        } else {
            assert(rest.len() == 0);
        }
        assert forall|i: int| 0 <= i < s.len() implies from <= #[trigger] s[i] < to && hit(s[i]) by {
            if i > 0 {
                assert(s[i] == rest[i - 1]);
            }
        }
        assert forall|i: int, j: int| 0 <= i < j < s.len() implies #[trigger] s[i] + step
            <= #[trigger] s[j] by {
            assert(s[j] == rest[j - 1]);
            if i > 0 {
                assert(s[i] == rest[i - 1]);
            }
        }
    }
}

/// With step one a scan reports every hit.
pub proof fn lemma_scan_complete(hit: spec_fn(int) -> bool, from: int, to: int, q: int)
    requires
        from <= q < to,
        hit(q),
    ensures
        scan(hit, 1, from, to).contains(q),
    decreases to - from,
{
    let s = scan(hit, 1, from, to);
    lemma_first_hit(hit, from, to);
    let p = first_hit(hit, from, to);
    assert(p <= q);
    let rest = scan(hit, 1, p + 1, to);
    if p == q {
        assert(s[0] == q);
    } else {
        lemma_scan_complete(hit, p + 1, to, q);
        let k = rest.index_of(q);
        assert(s[k + 1] == rest[k]);
    }
}

/// The lower-case form of an ASCII letter; other bytes stay as they are.
pub open spec fn ascii_lower(b: u8) -> u8 {
    if 65 <= b <= 90 {
        (b + 32) as u8
    } else {
        b
    }
}

/// The upper-case form of an ASCII letter; other bytes stay as they are.
pub open spec fn ascii_upper(b: u8) -> u8 {
    if 97 <= b <= 122 {
        (b - 32) as u8
    } else {
        b
    }
}

/// Two bytes are the same up to the case of ASCII letters.
pub open spec fn same_letter(a: u8, b: u8) -> bool {
    ascii_lower(a) == ascii_lower(b)
}

/// `needle` stands in `hay` at `at`, up to the case of ASCII letters.
pub open spec fn folds_at(hay: Seq<u8>, needle: Seq<u8>, at: int) -> bool {
    &&& 0 <= at
    &&& at + needle.len() <= hay.len()
    &&& forall|j: int| 0 <= j < needle.len() ==> same_letter(#[trigger] hay[at + j], needle[j])
}

/// `needle` stands in `hay` at `at`, with the case of ASCII letters mattering
/// or not.
pub open spec fn stands_at(hay: Seq<u8>, needle: Seq<u8>, case_insensitive: bool, at: int) -> bool {
    if case_insensitive {
        folds_at(hay, needle, at)
    } else {
        occurs_at(hay, needle, at)
    }
}

/// `needle` stands somewhere in `hay`.
pub open spec fn stands_in(hay: Seq<u8>, needle: Seq<u8>, case_insensitive: bool) -> bool {
    exists|at: int| stands_at(hay, needle, case_insensitive, at)
}

/// The lower-case form of `b`.
pub fn lower(b: u8) -> (res: u8)
    ensures
        res == ascii_lower(b),
{
    if 65 <= b && b <= 90 {
        b + 32
    } else {
        b
    }
}

/// The upper-case form of `b`.
pub fn upper(b: u8) -> (res: u8)
    ensures
        res == ascii_upper(b),
{
    if 97 <= b && b <= 122 {
        b - 32
    } else {
        b
    }
}

/// Whether `needle` stands in `hay` at `at`, up to the case of ASCII letters.
fn is_folded_at(hay: &[u8], needle: &[u8], at: usize) -> (res: bool)
    requires
        at + needle@.len() <= hay@.len(),
    ensures
        res == folds_at(hay@, needle@, at as int),
{
    let mut i: usize = 0;
    while i < needle.len()
        invariant
            i <= needle@.len(),
            at + needle@.len() <= hay.len(),
            forall|j: int| 0 <= j < i ==> same_letter(#[trigger] hay@[at + j], needle@[j]),
        decreases needle@.len() - i,
    {
        if lower(hay[at + i]) != lower(needle[i]) {
            assert(!same_letter(hay@[at + i], needle@[i as int]));
            return false;
        }
        i = i + 1;
    }
    true
}

/// Whether `needle` stands anywhere in `haystack`. Case-insensitive search
/// looks for the two forms of the first byte and verifies the rest.
pub fn find_in_chunk(haystack: &[u8], needle: &[u8], case_insensitive: bool) -> (res: bool)
    ensures
        res == stands_in(haystack@, needle@, case_insensitive),
{
    if case_insensitive {
        if needle.len() == 0 {
            assert(stands_at(haystack@, needle@, case_insensitive, 0));
            return true;
        }
        if haystack.len() < needle.len() {
            return false;
        }
        let first_lo = lower(needle[0]);
        let first_hi = upper(needle[0]);
        let mut from: usize = 0;
        while from < haystack.len()
            invariant
                0 < needle@.len() <= haystack.len(),
                from <= haystack@.len(),
                case_insensitive,
                first_lo == ascii_lower(needle@[0]),
                first_hi == ascii_upper(needle@[0]),
                forall|q: int| 0 <= q < from ==> !stands_at(haystack@, needle@, true, q),
            decreases haystack@.len() - from,
        {
            let rest = vstd::slice::slice_subrange(haystack, from, haystack.len());
            match memchr::memchr2(first_lo, first_hi, rest) {
                None => {
                    assert forall|q: int| 0 <= q implies !stands_at(
                        haystack@,
                        needle@,
                        true,
                        q,
                    ) by {
                        if from <= q < haystack@.len() {
                            assert(rest@[q - from] == haystack@[q + 0]);
                        }
                    }
                    return false;
                },
                Some(off) => {
                    let pos = from + off;
                    assert forall|q: int| 0 <= q < pos implies !stands_at(
                        haystack@,
                        needle@,
                        true,
                        q,
                    ) by {
                        if from <= q {
                            assert(rest@[q - from] == haystack@[q + 0]);
                        }
                    }
                    if haystack.len() - pos >= needle.len() && is_folded_at(haystack, needle, pos) {
                        assert(stands_at(haystack@, needle@, true, pos as int));
                        return true;
                    }
                    from = pos + 1;
                },
            }
        }
        false
    } else {
        match memchr::memmem::find(haystack, needle) {
            Some(p) => {
                assert(stands_at(haystack@, needle@, case_insensitive, p as int));
                true
            },
            None => {
                assert forall|at: int| !stands_at(haystack@, needle@, case_insensitive, at) by {
                    assert(!occurs_at(haystack@, needle@, at));
                }
                false
            },
        }
    }
}

/// Two bytes are the same but for the case of ASCII letters if and only if they
/// are equal or one is an upper-case letter and the other stands 32 behind it.
pub proof fn law_same_letter(a: u8, b: u8)
    ensures
        same_letter(a, b) <==> a == b || (65 <= a <= 90 && b == a + 32) || (65 <= b <= 90 && a == b
            + 32),
{
}

/// Each hit lies within a step of one that a scan reports, and not before it: a
/// scan passes over nothing but what overlaps a hit it has reported.
pub proof fn lemma_scan_covers(hit: spec_fn(int) -> bool, step: int, from: int, to: int, q: int)
    requires
        step >= 1,
        from <= q < to,
        hit(q),
    ensures
        exists|i: int|
            0 <= i < scan(hit, step, from, to).len() && #[trigger] scan(hit, step, from, to)[i] <= q
                < scan(hit, step, from, to)[i] + step,
    decreases to - from,
{
    let s = scan(hit, step, from, to);
    lemma_first_hit(hit, from, to);
    let p = first_hit(hit, from, to);
    let rest = scan(hit, step, p + step, to);
    assert(s == seq![p] + rest);
    assert(s[0] == p);
    if q >= p + step {
        lemma_scan_covers(hit, step, p + step, to, q);
        let i = choose|i: int| 0 <= i < rest.len() && #[trigger] rest[i] <= q < rest[i] + step;
        assert(s[i + 1] == rest[i]);
    }
}

/// The occurrences of an empty text are all positions, the end included.
pub proof fn law_empty_text_occurs_everywhere(hay: Seq<u8>, p: int)
    requires
        0 <= p <= hay.len(),
    ensures
        disjoint_occurrences(hay, seq![]).contains(p),
{
    let none: Seq<u8> = seq![];
    let hit = |q: int| occurs_at(hay, none, q);
    assert(hay.subrange(p, p) =~= none);
    assert(hit(p));
    lemma_scan_complete(hit, 0, hay.len() as int + 1, p);
}

} // verus!
