//! Pages of long lists.

use vstd::prelude::*;

verus! {

/// The first `n` members of a list, or all of it.
pub open spec fn at_most<T>(s: Seq<T>, n: int) -> Seq<T> {
    if s.len() <= n {
        s
    } else {
        s.take(n)
    }
}

/// What is left of a list behind its first `offset` members.
pub open spec fn page<T>(s: Seq<T>, offset: int) -> Seq<T> {
    if offset >= s.len() {
        seq![]
    } else {
        s.skip(offset)
    }
}

/// The page of `limit` members behind the first `offset`: the list is cut off
/// where the page ends, and what stands before the page is left out.
pub open spec fn page_at<T>(s: Seq<T>, offset: int, limit: int) -> Seq<T> {
    page(at_most(s, offset + limit), offset)
}

/// Pages that follow each other give the list: a page and the one that starts
/// where it ends are together the page of both lengths.
pub proof fn law_pages_follow<T>(s: Seq<T>, offset: int, first: int, second: int)
    requires
        0 <= offset,
        0 <= first,
        0 <= second,
    ensures
        page_at(s, offset, first) + page_at(s, offset + first, second) == page_at(
            s,
            offset,
            first + second,
        ),
        page_at(s, 0, s.len() as int) == s,
{
    assert(page_at(s, offset, first) + page_at(s, offset + first, second) =~= page_at(
        s,
        offset,
        first + second,
    ));
    assert(page_at(s, 0, s.len() as int) =~= s);
}

/// The first `n` members of a list.
pub fn first_of<T>(list: Vec<T>, n: usize) -> (res: Vec<T>)
    ensures
        res@ == at_most(list@, n as int),
{
    let mut res = list;
    res.truncate(n);
    res
}

/// What is left of a list behind its first `offset` members.
pub fn page_of<T>(list: Vec<T>, offset: usize) -> (res: Vec<T>)
    ensures
        res@ == page(list@, offset as int),
{
    let mut list = list;
    if offset >= list.len() {
        Vec::new()
    } else {
        let ghost all = list@;
        let res = list.split_off(offset);
        assert(res@ =~= all.skip(offset as int));
        res
    }
}

/// What the footer below a page says.
#[derive(Debug, PartialEq, Eq, Structural, Clone, Copy)]
pub struct Footer {
    /// How many there are, or at least are.
    pub total: usize,
    /// How many stand before the page.
    pub offset: usize,
    /// How many stand on it.
    pub returned: usize,
    /// Whether there may be more behind it.
    pub has_more: bool,
}

/// The footer below a page of `returned` members.
pub open spec fn footer_for(total: usize, offset: usize, returned: usize, truncated: bool) -> Footer {
    Footer { total, offset, returned, has_more: truncated || offset + returned < total }
}

/// The footer below a page.
pub fn footer(total: usize, offset: usize, returned: usize, truncated: bool) -> (res: Footer)
    ensures
        res == footer_for(total, offset, returned, truncated),
{
    let has_more = truncated || (offset < total && returned < total - offset);
    Footer { total, offset, returned, has_more }
}

/// How many to look for, so that a page can be cut out.
pub open spec fn cutoff(offset: usize, limit: usize) -> usize {
    if offset + limit <= usize::MAX {
        (offset + limit) as usize
    } else {
        usize::MAX
    }
}

/// How many to look for: as far as the page reaches.
pub fn take_for(offset: usize, limit: usize) -> (res: usize)
    ensures
        res == cutoff(offset, limit),
{
    offset.saturating_add(limit)
}

/// The page at an offset is made of the items from there on, in their order, as
/// many as are asked for or as there are.
pub proof fn law_page_items<T>(s: Seq<T>, offset: int, limit: int)
    requires
        0 <= offset,
        0 <= limit,
    ensures
        offset <= s.len() ==> page_at(s, offset, limit).len() == if limit <= s.len() - offset {
            limit
        } else {
            s.len() - offset
        },
        offset >= s.len() ==> page_at(s, offset, limit).len() == 0,
        forall|i: int|
            0 <= i < page_at(s, offset, limit).len() ==> #[trigger] page_at(s, offset, limit)[i]
                == s[offset + i],
{
}

/// The first items are those at the front, as many as are asked for or as there
/// are, and what is left out by an offset is at the front too.
pub proof fn law_first_items<T>(s: Seq<T>, n: int, i: int)
    requires
        0 <= n,
    ensures
        at_most(s, n).len() == if n <= s.len() {
            n
        } else {
            s.len() as int
        },
        0 <= i < at_most(s, n).len() ==> at_most(s, n)[i] == s[i],
        n <= s.len() ==> page(s, n).len() == s.len() - n,
        n >= s.len() ==> page(s, n).len() == 0,
        0 <= i < page(s, n).len() ==> page(s, n)[i] == s[n + i],
{
}

/// As many items as the cutoff says are enough for the page.
pub proof fn law_cutoff_suffices<T>(s: Seq<T>, offset: usize, limit: usize)
    requires
        s.len() <= usize::MAX,
    ensures
        page(at_most(s, cutoff(offset, limit) as int), offset as int) == page_at(
            s,
            offset as int,
            limit as int,
        ),
        offset <= cutoff(offset, limit),
        cutoff(offset, limit) <= offset + limit,
{
}

/// The footer of a page says that there is more if and only if the list was cut
/// short or items behind the page are left.
pub proof fn law_footer(s: Seq<int>, offset: usize, limit: usize, truncated: bool)
    requires
        s.len() <= usize::MAX,
        offset <= s.len(),
    ensures
        ({
            let shown = page_at(s, offset as int, limit as int);
            let f = footer_for(s.len() as usize, offset, shown.len() as usize, truncated);
            &&& f.total == s.len()
            &&& f.offset == offset
            &&& f.returned == shown.len()
            &&& f.has_more <==> truncated || shown.len() < s.skip(offset as int).len()
        }),
{
}

} // verus!
