//! From byte offsets to lines.

use vstd::prelude::*;

use crate::bytes::first_hit;
use crate::bytes::lemma_first_hit;
use crate::bytes::lemma_first_hit_is;
use crate::bytes::lemma_scan;
use crate::bytes::lemma_scan_complete;
use crate::bytes::memchr_all;
use crate::bytes::positions;
use crate::bytes::scan;

verus! {

/// The positions of the newlines of a text, ascending.
pub open spec fn newlines(h: Seq<u8>) -> Seq<int> {
    scan(|p: int| p < h.len() && h[p] == 10, 1, 0, h.len() as int)
}

/// How many newlines a text holds.
pub open spec fn newline_count(h: Seq<u8>) -> nat
    decreases h.len(),
{
    if h.len() == 0 {
        0
    } else {
        newline_count(h.drop_last()) + if h.last() == 10 {
            1nat
        } else {
            0nat
        }
    }
}

/// The position behind the last newline of a text, or zero.
pub open spec fn after_last_newline(h: Seq<u8>) -> int
    decreases h.len(),
{
    if h.len() == 0 {
        0
    } else if h.last() == 10 {
        h.len() as int
    } else {
        after_last_newline(h.drop_last())
    }
}

/// The text up to and with the byte at `offset`.
pub open spec fn through(h: Seq<u8>, offset: int) -> Seq<u8> {
    h.take(if offset < h.len() {
        offset + 1
    } else {
        h.len() as int
    })
}

/// The number of the line that `offset` lies on, counted from one. A newline
/// belongs to the line that it opens.
pub open spec fn line_number(h: Seq<u8>, offset: int) -> int {
    newline_count(through(h, offset)) as int + 1
}

/// Where the line that `offset` lies on starts.
pub open spec fn line_start(h: Seq<u8>, offset: int) -> int {
    after_last_newline(through(h, offset))
}

/// Where the line that starts at `start` ends: at its newline, or with the
/// text.
pub open spec fn line_end(h: Seq<u8>, start: int) -> int {
    first_hit(|p: int| h[p] == 10, start, h.len() as int)
}

/// The bytes of the line that `offset` lies on.
pub open spec fn line_bytes(h: Seq<u8>, offset: int) -> Seq<u8> {
    h.subrange(line_start(h, offset), line_end(h, line_start(h, offset)))
}

/// The newlines of a text, for finding lines by binary search.
#[derive(Debug)]
pub struct NewlineIndex {
    /// The positions of the newlines, ascending.
    pub positions: Vec<usize>,
}

/// The newlines before `k` count and delimit the lines up to there.
proof fn lemma_newlines_before(h: Seq<u8>, k: int, idx: int)
    requires
        0 <= k <= h.len(),
        0 <= idx <= newlines(h).len(),
        forall|i: int| 0 <= i < idx ==> #[trigger] newlines(h)[i] < k,
        forall|i: int| idx <= i < newlines(h).len() ==> #[trigger] newlines(h)[i] >= k,
    ensures
        newline_count(h.take(k)) == idx,
        after_last_newline(h.take(k)) == if idx == 0 {
            0
        } else {
            newlines(h)[idx - 1] + 1
        },
    decreases k,
{
    let hit = |p: int| p < h.len() && h[p] == 10;
    let p = newlines(h);
    lemma_scan(hit, 1, 0, h.len() as int);
    if k == 0 {
        if idx > 0 {
            assert(p[0] < 0);
        }
    } else {
        assert(h.take(k).drop_last() =~= h.take(k - 1));
        assert(h.take(k).last() == h[k - 1]);
        if h[k - 1] == 10 {
            assert(hit(k - 1));
            lemma_scan_complete(hit, 0, h.len() as int, k - 1);
            let j = p.index_of(k - 1);
            assert(p[j] == k - 1);
            assert(j < idx);
            if j < idx - 1 {
                assert(p[j] + 1 <= p[idx - 1]);
            }
            assert(j == idx - 1);
            assert forall|i: int| 0 <= i < idx - 1 implies #[trigger] p[i] < k - 1 by {
                assert(p[i] + 1 <= p[idx - 1]);
            }
            lemma_newlines_before(h, k - 1, idx - 1);
        } else {
            assert forall|i: int| 0 <= i < idx implies #[trigger] p[i] < k - 1 by {
                assert(hit(p[i]));
            }
            lemma_newlines_before(h, k - 1, idx);
        }
    }
}

impl NewlineIndex {
    /// The index belongs to the text `h`.
    pub open spec fn indexes(self, h: Seq<u8>) -> bool {
        positions(self.positions@) == newlines(h)
    }

    /// The index of a text.
    pub fn build(haystack: &[u8]) -> (res: NewlineIndex)
        ensures
            res.indexes(haystack@),
    {
        let positions = memchr_all(10, haystack);
        NewlineIndex { positions }
    }

    /// How many newlines stand at or before `offset`.
    fn count_through(&self, offset: usize) -> (res: usize)
        requires
            forall|i: int, j: int|
                0 <= i < j < self.positions@.len() ==> self.positions@[i] < self.positions@[j],
        ensures
            res <= self.positions@.len(),
            forall|i: int| 0 <= i < res ==> self.positions@[i] <= offset,
            forall|i: int| res <= i < self.positions@.len() ==> self.positions@[i] > offset,
    {
        let mut lo: usize = 0;
        let mut hi: usize = self.positions.len();
        while lo < hi
            invariant
                lo <= hi <= self.positions@.len(),
                forall|i: int, j: int|
                    0 <= i < j < self.positions@.len() ==> self.positions@[i] < self.positions@[j],
                forall|i: int| 0 <= i < lo ==> self.positions@[i] <= offset,
                forall|i: int| hi <= i < self.positions@.len() ==> self.positions@[i] > offset,
            decreases hi - lo,
        {
            let mid = lo + (hi - lo) / 2;
            if self.positions[mid] <= offset {
                assert forall|i: int| 0 <= i < mid + 1 implies self.positions@[i] <= offset by {
                    if i < mid {
                        assert(self.positions@[i] < self.positions@[mid as int]);
                    }
                }
                lo = mid + 1;
            } else {
                assert forall|i: int| mid <= i < self.positions@.len() implies self.positions@[i]
                    > offset by {
                    if i > mid {
                        assert(self.positions@[mid as int] < self.positions@[i]);
                    }
                }
                hi = mid;
            }
        }
        lo
    }

    /// The line that a byte offset lies on: its number from one, where it
    /// starts, and its bytes. The number wraps at the end of its range.
    pub fn byte_to_line<'a>(&self, haystack: &'a [u8], offset: usize) -> (res: (
        u32,
        usize,
        &'a [u8],
    ))
        requires
            self.indexes(haystack@),
        ensures
            res.0 == line_number(haystack@, offset as int) as u32,
            res.1 == line_start(haystack@, offset as int),
            res.2@ == line_bytes(haystack@, offset as int),
            res.1 <= haystack@.len(),
    {
        let len = haystack.len();
        let ghost h = haystack@;
        let ghost hit = |p: int| p < h.len() && h[p] == 10;
        let ghost ps = newlines(h);
        proof {
            lemma_scan(hit, 1, 0, h.len() as int);
            assert forall|i: int| 0 <= i < self.positions@.len() implies #[trigger] self.positions@[i]
                == ps[i] && ps[i] < h.len() && h[ps[i]] == 10 by {
                assert(positions(self.positions@)[i] == self.positions@[i]);
                assert(hit(ps[i]));
            }
            assert(positions(self.positions@).len() == self.positions@.len());
            assert forall|i: int, j: int|
                0 <= i < j < self.positions@.len() implies self.positions@[i]
                < self.positions@[j] by {
                assert(ps[i] + 1 <= ps[j]);
            }
        }
        let idx = self.count_through(offset);
        let ghost k = if offset < h.len() {
            offset + 1
        } else {
            h.len() as int
        };
        proof {
            assert forall|i: int| 0 <= i < idx implies #[trigger] ps[i] < k by {
                assert(self.positions@[i] == ps[i]);
            }
            assert forall|i: int| idx <= i < ps.len() implies #[trigger] ps[i] >= k by {
                assert(self.positions@[i] == ps[i]);
            }
            lemma_newlines_before(h, k, idx as int);
        }
        let line = if idx < usize::MAX {
            (idx + 1) as u32
        } else {
            assert((0xffff_ffffu64 + 1) as u32 == 0) by (bit_vector);
            assert((0xffff_ffff_ffff_ffffu64 + 1) as u32 == 0) by (bit_vector);
            0
        };
        let start = if idx == 0 {
            0
        } else {
            self.positions[idx - 1] + 1
        };
        let end = if idx < self.positions.len() {
            self.positions[idx]
        } else {
            len
        };
        proof {
            let nl = |p: int| h[p] == 10;
            assert forall|q: int| start <= q < end implies !#[trigger] nl(q) by {
                if h[q] == 10 {
                    assert(hit(q));
                    lemma_scan_complete(hit, 0, h.len() as int, q);
                    let j = ps.index_of(q);
                    assert(self.positions@[j] == q);
                    if j < idx {
                        if j < idx - 1 {
                            assert(ps[j] + 1 <= ps[idx - 1]);
                        }
                    } else if j > idx {
                        assert(ps[idx as int] + 1 <= ps[j]);
                    }
                }
            }
            if idx < ps.len() && idx > 0 {
                assert(ps[idx - 1] + 1 <= ps[idx as int]);
            }
            lemma_first_hit_is(nl, start as int, h.len() as int, end as int);
        }
        (line, start, vstd::slice::slice_subrange(haystack, start, end))
    }
}

/// Newlines are counted byte by byte.
pub proof fn law_newlines_are_counted(h: Seq<u8>, b: u8)
    ensures
        newline_count(seq![]) == 0,
        newline_count(h.push(b)) == newline_count(h) + (if b == 10 {
            1int
        } else {
            0
        }),
{
    assert(h.push(b).drop_last() =~= h);
}

proof fn lemma_after_last_newline(h: Seq<u8>)
    ensures
        0 <= after_last_newline(h) <= h.len(),
        after_last_newline(h) > 0 ==> h[after_last_newline(h) - 1] == 10,
        forall|k: int| after_last_newline(h) <= k < h.len() ==> h[k] != 10,
    decreases h.len(),
{
    if h.len() > 0 && h.last() != 10 {
        lemma_after_last_newline(h.drop_last());
        assert forall|k: int| after_last_newline(h) <= k < h.len() implies h[k] != 10 by {
            if k < h.len() - 1 {
                assert(h.drop_last()[k] == h[k]);
            }
        }
    }
}

/// The line of a byte: its number is one more than there are newlines up to that
/// byte. It starts at the front or behind a newline, with no newline between its
/// start and the byte, and goes on to the next newline or to the end.
pub proof fn law_line_of_a_byte(h: Seq<u8>, offset: int)
    requires
        0 <= offset < h.len(),
    ensures
        line_number(h, offset) == newline_count(h.take(offset + 1)) + 1,
        ({
            let start = line_start(h, offset);
            let text = line_bytes(h, offset);
            &&& 0 <= start <= offset + 1
            &&& start > 0 ==> h[start - 1] == 10
            &&& forall|k: int| start <= k <= offset ==> h[k] != 10
            &&& start + text.len() <= h.len()
            &&& text == h.subrange(start, start + text.len())
            &&& !text.contains(10)
            &&& start + text.len() < h.len() ==> h[start + text.len()] == 10
        }),
{
    let seen = h.take(offset + 1);
    assert(through(h, offset) == seen);
    lemma_after_last_newline(seen);
    let start = line_start(h, offset);
    assert forall|k: int| start <= k <= offset implies h[k] != 10 by {
        assert(seen[k] == h[k]);
    }
    if start > 0 {
        assert(seen[start - 1] == h[start - 1]);
    }
    let hit = |p: int| h[p] == 10;
    lemma_first_hit(hit, start, h.len() as int);
    let end = line_end(h, start);
    let text = line_bytes(h, offset);
    assert(!text.contains(10)) by {
        if text.contains(10) {
            let k = text.index_of(10);
            assert(hit(start + k));
        }
    }
    if end < h.len() {
        assert(hit(end));
    }
}

/// Two bytes with a newline between them, or at the second, stand on lines with
/// different numbers; two bytes with none stand on the same line.
pub proof fn law_line_numbers_step(h: Seq<u8>, offset: int)
    requires
        0 <= offset,
        offset + 1 < h.len(),
    ensures
        h[offset + 1] == 10 ==> line_number(h, offset + 1) == line_number(h, offset) + 1,
        h[offset + 1] != 10 ==> line_number(h, offset + 1) == line_number(h, offset)
            && line_start(h, offset + 1) == line_start(h, offset) && line_bytes(h, offset + 1)
            == line_bytes(h, offset),
{
    assert(through(h, offset + 1).drop_last() =~= through(h, offset));
}

} // verus!
