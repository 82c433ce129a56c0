//! Matching lines: their order, how many are kept, and pages of them.

use vstd::prelude::*;

use crate::text::is_before;
use crate::text::lemma_text_before_asymmetric;
use crate::text::lemma_text_before_irreflexive;
use crate::text::lemma_text_before_total;
use crate::text::lemma_text_before_transitive;
use crate::text::text_before;
use crate::text::texts;

verus! {

/// A matching line, or with line zero a whole file.
#[derive(Debug)]
pub struct GrepHit {
    /// The path of the file.
    pub path: String,
    /// The number of the line, from one; zero where the hit is the file.
    pub line: u32,
    /// The line, or the matched part of it.
    pub text: String,
    /// The start and end of each match within `text`, in bytes.
    pub match_ranges: Vec<(u32, u32)>,
    /// The lines just before.
    pub context_before: Vec<String>,
    /// The lines just after.
    pub context_after: Vec<String>,
}

/// What a hit says.
#[verifier::ext_equal]
pub struct HitView {
    pub path: Seq<char>,
    pub line: u32,
    pub text: Seq<char>,
    pub ranges: Seq<(u32, u32)>,
    pub before: Seq<Seq<char>>,
    pub after: Seq<Seq<char>>,
}

impl View for GrepHit {
    type V = HitView;

    open spec fn view(&self) -> HitView {
        HitView {
            path: self.path@,
            line: self.line,
            text: self.text@,
            ranges: self.match_ranges@,
            before: texts(self.context_before@),
            after: texts(self.context_after@),
        }
    }
}

/// What each hit of a list says.
pub open spec fn views(hits: Seq<GrepHit>) -> Seq<HitView> {
    hits.map_values(|h: GrepHit| h@)
}

/// The hit for a whole file.
pub open spec fn file_hit(path: Seq<char>) -> HitView {
    HitView { path, line: 0, text: seq![], ranges: seq![], before: seq![], after: seq![] }
}

/// The order of hits: by path, then by line.
pub open spec fn hit_before(a: HitView, b: HitView) -> bool {
    text_before(a.path, b.path) || (a.path == b.path && a.line < b.line)
}

/// No hit stands before an earlier one.
pub open spec fn in_order(s: Seq<HitView>) -> bool {
    forall|i: int, j: int|
        0 <= i < j < s.len() ==> !hit_before(#[trigger] s[j], #[trigger] s[i])
}

/// `s` with `x` put behind all that do not stand after it.
pub open spec fn insert_sorted(s: Seq<HitView>, x: HitView) -> Seq<HitView>
    decreases s.len(),
{
    if s.len() > 0 && hit_before(x, s.last()) {
        insert_sorted(s.drop_last(), x).push(s.last())
    } else {
        s.push(x)
    }
}

/// `s` in order; hits that stand on the same line keep their order.
pub open spec fn sorted_hits(s: Seq<HitView>) -> Seq<HitView>
    decreases s.len(),
{
    if s.len() == 0 {
        seq![]
    } else {
        insert_sorted(sorted_hits(s.drop_last()), s.last())
    }
}

/// Whether `a` stands before `b`.
fn is_hit_before(a: &GrepHit, b: &GrepHit) -> (res: bool)
    ensures
        res == hit_before(a@, b@),
{
    is_before(a.path.as_str(), b.path.as_str()) || (*a.path.as_str() == *b.path.as_str() && a.line
        < b.line)
}

proof fn lemma_hit_before_transitive(a: HitView, b: HitView, c: HitView)
    requires
        hit_before(a, b),
        hit_before(b, c),
    ensures
        hit_before(a, c),
{
    if text_before(a.path, b.path) && text_before(b.path, c.path) {
        lemma_text_before_transitive(a.path, b.path, c.path);
    }
}

/// What does not stand before the one does not stand before what follows it.
proof fn lemma_hit_not_before(a: HitView, b: HitView, c: HitView)
    requires
        !hit_before(b, a),
        !hit_before(c, b),
    ensures
        !hit_before(c, a),
{
    lemma_text_before_total(a.path, b.path);
    lemma_text_before_total(b.path, c.path);
    if text_before(a.path, b.path) && text_before(b.path, c.path) {
        lemma_text_before_transitive(a.path, b.path, c.path);
    }
    if text_before(c.path, a.path) {
        if a.path == b.path {
        } else if b.path == c.path {
        } else {
            lemma_text_before_asymmetric(a.path, c.path);
        }
    }
    lemma_text_before_irreflexive(a.path);
    if text_before(a.path, c.path) {
        lemma_text_before_asymmetric(a.path, c.path);
    }
}

/// In a list in order, the place of a new hit is where the later ones start.
proof fn lemma_insert_at(s: Seq<HitView>, x: HitView, p: int)
    requires
        0 <= p <= s.len(),
        forall|i: int| 0 <= i < p ==> !hit_before(x, #[trigger] s[i]),
        forall|i: int| p <= i < s.len() ==> hit_before(x, #[trigger] s[i]),
    ensures
        insert_sorted(s, x) == s.insert(p, x),
    decreases s.len(),
{
    if s.len() > 0 && hit_before(x, s.last()) {
        assert(p < s.len());
        lemma_insert_at(s.drop_last(), x, p);
        assert(s.drop_last().insert(p, x).push(s.last()) =~= s.insert(p, x));
    } else {
        if p < s.len() {
            assert(hit_before(x, s[s.len() - 1]));
        }
        assert(s.push(x) =~= s.insert(p, x));
    }
}

/// The position in `hits` of the first that stands after `x`.
fn place_of(hits: &Vec<GrepHit>, x: &GrepHit) -> (res: usize)
    requires
        in_order(views(hits@)),
    ensures
        res <= hits@.len(),
        forall|i: int| 0 <= i < res ==> !hit_before(x@, #[trigger] views(hits@)[i]),
        forall|i: int| res <= i < hits@.len() ==> hit_before(x@, #[trigger] views(hits@)[i]),
{
    let ghost s = views(hits@);
    let mut lo: usize = 0;
    let mut hi: usize = hits.len();
    while lo < hi
        invariant
            s == views(hits@),
            in_order(s),
            lo <= hi <= hits@.len(),
            forall|i: int| 0 <= i < lo ==> !hit_before(x@, #[trigger] s[i]),
            forall|i: int| hi <= i < hits@.len() ==> hit_before(x@, #[trigger] s[i]),
        decreases hi - lo,
    {
        let mid = lo + (hi - lo) / 2;
        let after = is_hit_before(x, &hits[mid]);
        assert(s[mid as int] == hits@[mid as int]@);
        if after {
            assert forall|i: int| mid <= i < hits@.len() implies hit_before(x@, #[trigger] s[i]) by {
                if i > mid {
                    assert(!hit_before(s[i], s[mid as int]));
                    if !hit_before(x@, s[i]) {
                        lemma_hit_not_before(s[mid as int], s[i], x@);
                    }
                }
            }
            hi = mid;
        } else {
            assert forall|i: int| 0 <= i < mid + 1 implies !hit_before(x@, #[trigger] s[i]) by {
                if i < mid {
                    lemma_hit_not_before(s[i], s[mid as int], x@);
                }
            }
            lo = mid + 1;
        }
    }
    lo
}

/// Inserting keeps a list in order.
proof fn lemma_insert_in_order(s: Seq<HitView>, x: HitView)
    requires
        in_order(s),
    ensures
        in_order(insert_sorted(s, x)),
        insert_sorted(s, x).len() == s.len() + 1,
        insert_sorted(s, x).to_multiset() == s.to_multiset().insert(x),
        forall|i: int|
            0 <= i < insert_sorted(s, x).len() ==> #[trigger] insert_sorted(s, x)[i] == x
                || s.contains(insert_sorted(s, x)[i]),
    decreases s.len(),
{
    broadcast use vstd::seq_lib::group_to_multiset_ensures;

    if s.len() > 0 && hit_before(x, s.last()) {
        let front = s.drop_last();
        let r = insert_sorted(front, x);
        lemma_insert_in_order(front, x);
        let full = r.push(s.last());
        assert(s =~= front.push(s.last()));
        assert forall|i: int, j: int| 0 <= i < j < full.len() implies !hit_before(
            #[trigger] full[j],
            #[trigger] full[i],
        ) by {
            if j == r.len() {
                if r[i] == x {
                    if hit_before(s.last(), x) {
                        lemma_hit_before_transitive(x, s.last(), x);
                        lemma_text_before_irreflexive(x.path);
                    }
                } else {
                    assert(front.contains(r[i]));
                    let k = front.index_of(r[i]);
                    assert(!hit_before(s[s.len() - 1], s[k]));
                }
            } else {
                assert(!hit_before(r[j], r[i]));
            }
        }
        assert forall|i: int| 0 <= i < full.len() implies #[trigger] full[i] == x || s.contains(
            full[i],
        ) by {
            if i < r.len() {
                assert(full[i] == r[i]);
                if r[i] != x {
                    let k = front.index_of(r[i]);
                    assert(s[k] == r[i]);
                }
            } else {
                assert(s[s.len() - 1] == full[i]);
            }
        }
        assert(full.to_multiset() =~= s.to_multiset().insert(x));
    } else {
        let full = s.push(x);
        assert forall|i: int, j: int| 0 <= i < j < full.len() implies !hit_before(
            #[trigger] full[j],
            #[trigger] full[i],
        ) by {
            if j == s.len() {
                if i < s.len() - 1 {
                    assert(!hit_before(s[s.len() - 1], s[i]));
                    lemma_hit_not_before(s[i], s[s.len() - 1], x);
                }
            } else {
                assert(!hit_before(s[j], s[i]));
            }
        }
        assert forall|i: int| 0 <= i < full.len() implies #[trigger] full[i] == x || s.contains(
            full[i],
        ) by {
            if i < s.len() {
                assert(s[i] == full[i]);
            }
        }
    }
}

/// Sorting puts hits in order, and neither loses nor adds one.
pub proof fn law_sorted_hits(s: Seq<HitView>)
    ensures
        in_order(sorted_hits(s)),
        sorted_hits(s).to_multiset() == s.to_multiset(),
        sorted_hits(s).len() == s.len(),
    decreases s.len(),
{
    broadcast use vstd::seq_lib::group_to_multiset_ensures;

    if s.len() > 0 {
        law_sorted_hits(s.drop_last());
        lemma_insert_in_order(sorted_hits(s.drop_last()), s.last());
        assert(s =~= s.drop_last().push(s.last()));
    }
}

/// Puts hits in order; those of the same line keep their order.
pub fn sort_hits(hits: Vec<GrepHit>) -> (res: Vec<GrepHit>)
    ensures
        views(res@) == sorted_hits(views(hits@)),
{
    let ghost all = views(hits@);
    let mut left = hits;
    let mut todo: Vec<GrepHit> = Vec::new();
    while left.len() > 0
        invariant
            views(left@) + views(todo@).reverse() == all,
        decreases left@.len(),
    {
        let ghost (l, t) = (left@, todo@);
        match left.pop() {
            Some(h) => {
                todo.push(h);
                assert(views(left@) + views(todo@).reverse() =~= views(l) + views(t).reverse());
            },
            None => {},
        }
    }
    let mut res: Vec<GrepHit> = Vec::new();
    assert(all.take(0) =~= seq![]);
    assert(views(res@) =~= seq![]);
    assert(views(todo@).reverse() =~= all);
    while todo.len() > 0
        invariant
            todo@.len() <= all.len(),
            views(todo@) =~= all.skip(all.len() - todo@.len()).reverse(),
            views(res@) == sorted_hits(all.take(all.len() - todo@.len())),
        decreases todo@.len(),
    {
        let ghost k = all.len() - todo@.len();
        let ghost (r, t) = (res@, todo@);
        assert(views(t)[t.len() - 1] == all[k]);
        match todo.pop() {
            Some(h) => {
                assert(h@ == all[k]);
                proof {
                    law_sorted_hits(all.take(k));
                }
                let p = place_of(&res, &h);
                proof {
                    lemma_insert_at(views(r), h@, p as int);
                    assert(all.take(k + 1).drop_last() =~= all.take(k));
                }
                res.insert(p, h);
                assert(views(res@) =~= views(r).insert(p as int, h@));
                assert(views(todo@) =~= views(t).drop_last());
            },
            None => {},
        }
    }
    assert(all.take(all.len() as int) =~= all);
    res
}

/// Whether a walk over files goes on.
#[derive(Debug, PartialEq, Eq, Structural)]
pub enum WalkStep {
    Continue,
    Quit,
}

/// What a search finds in a file.
#[derive(Debug)]
pub enum Finding {
    /// Nothing.
    Nothing,
    /// The file itself is a hit.
    File,
    /// Lines of the file, one at least.
    Lines(Vec<GrepHit>),
}

/// The hits found so far, of which no more than `take` are kept.
#[derive(Debug)]
pub struct HitCollector {
    /// The hits that are kept.
    pub hits: Vec<GrepHit>,
    /// How many were found; wraps at the end of its range.
    pub found: usize,
    /// Whether enough were found for the walk to stop.
    pub stop: bool,
    /// How many to keep.
    pub take: usize,
}

/// What a collector holds.
#[verifier::ext_equal]
pub struct Collected {
    pub hits: Seq<HitView>,
    pub found: usize,
    pub stop: bool,
    pub take: usize,
}

impl View for HitCollector {
    type V = Collected;

    open spec fn view(&self) -> Collected {
        Collected {
            hits: views(self.hits@),
            found: self.found,
            stop: self.stop,
            take: self.take,
        }
    }
}

impl Collected {
    /// Nothing was found yet.
    pub open spec fn nothing(take: usize) -> Collected {
        Collected { hits: seq![], found: 0, stop: false, take }
    }

    /// How many more hits are kept.
    pub open spec fn room(self) -> int {
        if self.found >= self.take {
            0
        } else {
            self.take - self.hits.len()
        }
    }

    /// The hits of `local` do not all fit.
    pub open spec fn overflows(self, local: Seq<HitView>) -> bool {
        self.found >= self.take || local.len() > self.room()
    }

    /// A file is noted.
    pub open spec fn with_path(self, path: Seq<char>) -> Collected {
        Collected {
            hits: if self.room() > 0 {
                self.hits.push(file_hit(path))
            } else {
                self.hits
            },
            found: vstd::wrapping::usize_specs::wrapping_add(self.found, 1),
            stop: self.stop || self.room() == 0,
            take: self.take,
        }
    }

    /// The matching lines of a file are noted.
    pub open spec fn with_lines(self, local: Seq<HitView>) -> Collected {
        Collected {
            hits: self.hits + local.take(
                if local.len() <= self.room() {
                    local.len() as int
                } else {
                    self.room()
                },
            ),
            found: vstd::wrapping::usize_specs::wrapping_add(self.found, local.len() as usize),
            stop: self.stop || self.overflows(local),
            take: self.take,
        }
    }

    /// What a search finds in a file is noted.
    pub open spec fn with_finding(self, path: Seq<char>, finding: Finding) -> Collected {
        match finding {
            Finding::Nothing => self,
            Finding::File => self.with_path(path),
            Finding::Lines(hits) => self.with_lines(views(hits@)),
        }
    }
}

impl HitCollector {
    /// No more hits are kept than asked for.
    pub open spec fn wf(self) -> bool {
        self.hits@.len() <= self.take
    }

    /// A collector that has seen nothing.
    pub fn new(take: usize) -> (res: HitCollector)
        ensures
            res.wf(),
            res@ == Collected::nothing(take),
    {
        let res = HitCollector { hits: Vec::new(), found: 0, stop: false, take };
        assert(views(res.hits@) =~= seq![]);
        res
    }

    /// Takes note of a file.
    pub fn push_path_hit(&mut self, path: &str)
        requires
            old(self).wf(),
        ensures
            final(self).wf(),
            final(self)@ == old(self)@.with_path(path@),
    {
        let prior = self.found;
        self.found = prior.wrapping_add(1);
        if prior >= self.take {
            self.stop = true;
            return;
        }
        if self.hits.len() >= self.take {
            self.stop = true;
            return;
        }
        let hit = path_hit(path);
        let ghost before = self.hits@;
        self.hits.push(hit);
        assert(views(self.hits@) =~= views(before).push(file_hit(path@)));
    }

    /// Takes note of the matching lines of a file. The walk goes on only if
    /// all of them could be kept.
    pub fn push_line_hits(&mut self, local: Vec<GrepHit>) -> (res: WalkStep)
        requires
            old(self).wf(),
        ensures
            final(self).wf(),
            final(self)@ == old(self)@.with_lines(views(local@)),
            res == WalkStep::Quit <==> old(self)@.overflows(views(local@)),
    {
        let prior = self.found;
        self.found = prior.wrapping_add(local.len());
        let ghost all = views(local@);
        let ghost before = self.hits@;
        if prior >= self.take {
            self.stop = true;
            assert(views(self.hits@) =~= views(before) + all.take(0));
            return WalkStep::Quit;
        }
        let mut rest = reversed(local);
        let ghost n = all.len() as int;
        while rest.len() > 0
            invariant
                before.len() <= self.take,
                prior < self.take,
                self.hits@.len() == before.len() + (n - rest@.len()),
                rest@.len() <= n,
                n == all.len(),
                all == views(local@),
                views(rest@) =~= all.skip(n - rest@.len()).reverse(),
                views(self.hits@) == views(before) + all.take(n - rest@.len()),
                self.take == old(self).take,
                self.stop == old(self).stop,
                self.wf(),
                self.found == vstd::wrapping::usize_specs::wrapping_add(
                    old(self).found,
                    local@.len() as usize,
                ),
                before == old(self).hits@,
                old(self).found == prior,
            decreases rest@.len(),
        {
            if self.hits.len() >= self.take {
                self.stop = true;
                return WalkStep::Quit;
            }
            let ghost k = n - rest@.len();
            let ghost (h0, r0) = (self.hits@, rest@);
            assert(views(r0)[r0.len() - 1] == all[k]);
            match rest.pop() {
                Some(h) => {
                    assert(h@ == all[k]);
                    self.hits.push(h);
                    assert(views(self.hits@) =~= views(h0).push(all[k]));
                    assert(all.take(k + 1) =~= all.take(k).push(all[k]));
                    assert(views(rest@) =~= views(r0).drop_last());
                },
                None => {},
            }
        }
        WalkStep::Continue
    }
}

impl HitCollector {
    /// Takes note of what a search finds in a file. Says whether the walk goes
    /// on.
    pub fn note(&mut self, path: &str, finding: Finding) -> (res: WalkStep)
        requires
            old(self).wf(),
        ensures
            final(self).wf(),
            final(self)@ == old(self)@.with_finding(path@, finding),
            res == WalkStep::Quit <==> (finding matches Finding::Lines(hits)
                && old(self)@.overflows(views(hits@))),
    {
        match finding {
            Finding::Nothing => WalkStep::Continue,
            Finding::File => {
                self.push_path_hit(path);
                WalkStep::Continue
            },
            Finding::Lines(hits) => self.push_line_hits(hits),
        }
    }
}

/// The hit for a whole file.
pub fn path_hit(path: &str) -> (res: GrepHit)
    ensures
        res@ == file_hit(path@),
{
    let hit = GrepHit {
        path: path.to_owned(),
        line: 0,
        text: String::new(),
        match_ranges: Vec::new(),
        context_before: Vec::new(),
        context_after: Vec::new(),
    };
    assert(hit@ =~= file_hit(path@)) by {
        assert(texts(hit.context_before@) =~= seq![]);
        assert(texts(hit.context_after@) =~= seq![]);
    }
    hit
}

/// What is collected when the hits of one file after the other are noted.
pub open spec fn collected(lists: Seq<Seq<HitView>>, take: usize) -> Collected
    decreases lists.len(),
{
    if lists.len() == 0 {
        Collected::nothing(take)
    } else {
        collected(lists.drop_last(), take).with_lines(lists.last())
    }
}

/// A walk keeps the first `take` of the hits, and is told to stop only once
/// there are more: what is kept is all there is, or as many as were asked for.
pub proof fn law_first_hits_are_kept(lists: Seq<Seq<HitView>>, take: usize)
    requires
        lists.flatten().len() <= usize::MAX,
    ensures
        collected(lists, take).hits == if lists.flatten().len() <= take {
            lists.flatten()
        } else {
            lists.flatten().take(take as int)
        },
        collected(lists, take).found == lists.flatten().len(),
        collected(lists, take).take == take,
        collected(lists, take).stop ==> lists.flatten().len() >= take,
        lists.flatten().len() > take ==> collected(lists, take).stop,
    decreases lists.len(),
{
    if lists.len() == 0 {
        assert(lists.flatten() =~= seq![]);
    } else {
        let front = lists.drop_last();
        let last = lists.last();
        lists.lemma_flatten_and_flatten_alt_are_equivalent();
        front.lemma_flatten_and_flatten_alt_are_equivalent();
        let (f, all) = (front.flatten(), lists.flatten());
        assert(all == f + last);
        law_first_hits_are_kept(front, take);
        let c = collected(front, take);
        let d = collected(lists, take);
        assert(d.found == all.len());
        let n = if last.len() <= c.room() {
            last.len() as int
        } else {
            c.room()
        };
        if all.len() <= take {
            assert(last.take(n) =~= last);
            assert(d.hits =~= all);
        } else {
            assert(d.hits =~= all.take(take as int));
        }
    }
}

/// The hits of a list, last one first.
fn reversed(hits: Vec<GrepHit>) -> (res: Vec<GrepHit>)
    ensures
        views(res@) == views(hits@).reverse(),
        res@.len() == hits@.len(),
{
    let ghost all = views(hits@);
    let mut left = hits;
    let mut res: Vec<GrepHit> = Vec::new();
    while left.len() > 0
        invariant
            views(left@) + views(res@).reverse() == all,
            left@.len() + res@.len() == all.len(),
        decreases left@.len(),
    {
        let ghost (l, t) = (left@, res@);
        match left.pop() {
            Some(h) => {
                res.push(h);
                assert(views(left@) + views(res@).reverse() =~= views(l) + views(t).reverse());
            },
            None => {},
        }
    }
    assert(views(res@) =~= all.reverse()) by {
        assert(views(res@).reverse() =~= all);
        assert(views(res@).reverse().reverse() =~= views(res@));
    }
    res
}

/// The members of a sorted list without repetition, once `x` has joined it.
pub open spec fn insert_unique(s: Seq<Seq<char>>, x: Seq<char>) -> Seq<Seq<char>>
    decreases s.len(),
{
    if s.len() == 0 {
        seq![x]
    } else if s.last() == x {
        s
    } else if text_before(s.last(), x) {
        s.push(x)
    } else {
        insert_unique(s.drop_last(), x).push(s.last())
    }
}

/// The texts of a list, in order and each once.
pub open spec fn distinct_texts(s: Seq<Seq<char>>) -> Seq<Seq<char>>
    decreases s.len(),
{
    if s.len() == 0 {
        seq![]
    } else {
        insert_unique(distinct_texts(s.drop_last()), s.last())
    }
}

/// The paths of a list of hits, in order and each once.
pub open spec fn distinct_paths(s: Seq<HitView>) -> Seq<Seq<char>> {
    distinct_texts(s.map_values(|h: HitView| h.path))
}

/// The texts ascend.
pub open spec fn ascending(s: Seq<Seq<char>>) -> bool {
    forall|i: int, j: int| 0 <= i < j < s.len() ==> text_before(#[trigger] s[i], #[trigger] s[j])
}

/// A new member joins an ascending list in its place.
proof fn lemma_insert_unique(s: Seq<Seq<char>>, x: Seq<char>)
    requires
        ascending(s),
    ensures
        ascending(insert_unique(s, x)),
        forall|t: Seq<char>| #[trigger]
            insert_unique(s, x).contains(t) <==> s.contains(t) || t == x,
    decreases s.len(),
{
    let r = insert_unique(s, x);
    if s.len() == 0 {
        assert(r[0] == x);
    } else if s.last() == x {
        assert(s[s.len() - 1] == x);
    } else if text_before(s.last(), x) {
        assert forall|i: int, j: int| 0 <= i < j < r.len() implies text_before(
            #[trigger] r[i],
            #[trigger] r[j],
        ) by {
            if j == s.len() && i < s.len() - 1 {
                lemma_text_before_transitive(s[i], s[s.len() - 1], x);
            }
        }
        assert forall|t: Seq<char>| #[trigger] r.contains(t) <==> s.contains(t) || t == x by {
            if s.contains(t) {
                assert(r[s.index_of(t)] == t);
            }
            assert(r[s.len() as int] == x);
        }
    } else {
        let front = s.drop_last();
        let q = insert_unique(front, x);
        lemma_insert_unique(front, x);
        lemma_text_before_total(s.last(), x);
        assert forall|i: int, j: int| 0 <= i < j < r.len() implies text_before(
            #[trigger] r[i],
            #[trigger] r[j],
        ) by {
            if j == q.len() {
                assert(q.contains(q[i]));
                if q[i] != x {
                    let k = front.index_of(q[i]);
                    assert(text_before(s[k], s[s.len() - 1]));
                }
            } else {
                assert(text_before(q[i], q[j]));
            }
        }
        assert forall|t: Seq<char>| #[trigger] r.contains(t) <==> s.contains(t) || t == x by {
            if r.contains(t) {
                let k = r.index_of(t);
                if k < q.len() {
                    assert(q.contains(q[k]));
                    if t != x {
                        assert(s[front.index_of(t)] == t);
                    }
                } else {
                    assert(s[s.len() - 1] == t);
                }
            }
            if s.contains(t) {
                let k = s.index_of(t);
                if k < front.len() {
                    assert(front[k] == t);
                    assert(q.contains(t));
                    assert(r[q.index_of(t)] == t);
                } else {
                    assert(r[q.len() as int] == t);
                }
            }
            assert(q.contains(x));
            assert(r[q.index_of(x)] == x);
        }
    }
}

/// The texts of a list come in order, each once, and none is missing or added.
pub proof fn law_distinct_texts(s: Seq<Seq<char>>)
    ensures
        ascending(distinct_texts(s)),
        forall|t: Seq<char>| #[trigger] distinct_texts(s).contains(t) <==> s.contains(t),
    decreases s.len(),
{
    if s.len() > 0 {
        let front = s.drop_last();
        law_distinct_texts(front);
        lemma_insert_unique(distinct_texts(front), s.last());
        assert forall|t: Seq<char>| #[trigger] distinct_texts(s).contains(t) <==> s.contains(
            t,
        ) by {
            if front.contains(t) {
                assert(s[front.index_of(t)] == t);
            }
            if s.contains(t) && t != s.last() {
                assert(front[s.index_of(t)] == t);
            }
            assert(s[s.len() - 1] == s.last());
        }
    }
}

/// Adds `x` to a sorted list without repetition.
pub fn add_path(list: &mut Vec<String>, x: &str)
    ensures
        texts(final(list)@) == insert_unique(texts(old(list)@), x@),
{
    let ghost all = texts(list@);
    let mut k: usize = list.len();
    assert(all.take(k as int) =~= all);
    assert(insert_unique(all.take(k as int), x@) + all.skip(k as int) =~= insert_unique(all, x@));
    loop
        invariant
            list@ == old(list)@,
            all == texts(list@),
            k <= list@.len(),
            insert_unique(all.take(k as int), x@) + all.skip(k as int) == insert_unique(all, x@),
        ensures
            insert_unique(all.take(k as int), x@) == all.take(k as int).push(x@),
        decreases k,
    {
        if k == 0 {
            assert(all.take(0).push(x@) =~= seq![x@]);
            break;
        }
        let ghost head = all.take(k as int);
        assert(head.last() == list@[k - 1]@);
        if *list[k - 1].as_str() == *x {
            assert(head + all.skip(k as int) =~= all);
            return;
        }
        if is_before(list[k - 1].as_str(), x) {
            break;
        }
        assert(head.drop_last() =~= all.take(k - 1));
        assert(insert_unique(all.take(k - 1), x@) + all.skip(k - 1) =~= insert_unique(
            all.take(k - 1),
            x@,
        ).push(head.last()) + all.skip(k as int));
        k = k - 1;
    }
    list.insert(k, x.to_owned());
    assert(texts(list@) =~= all.take(k as int).push(x@) + all.skip(k as int));
}

/// The paths of the hits, in order and each once.
pub fn paths_of(hits: &Vec<GrepHit>) -> (res: Vec<String>)
    ensures
        texts(res@) == distinct_paths(views(hits@)),
{
    let mut res: Vec<String> = Vec::new();
    let mut i: usize = 0;
    let ghost all = views(hits@).map_values(|h: HitView| h.path);
    assert(all.take(0) =~= seq![]);
    assert(texts(res@) =~= seq![]);
    while i < hits.len()
        invariant
            i <= hits@.len(),
            all == views(hits@).map_values(|h: HitView| h.path),
            texts(res@) == distinct_texts(all.take(i as int)),
        decreases hits@.len() - i,
    {
        add_path(&mut res, hits[i].path.as_str());
        assert(all.take(i + 1).drop_last() =~= all.take(i as int));
        assert(all.take(i + 1).last() == hits@[i as int].path@);
        i = i + 1;
    }
    assert(all.take(i as int) =~= all);
    res
}

/// Sorted hits go by path, and within a path by line.
pub proof fn law_hits_go_by_path_and_line(s: Seq<HitView>, i: int, j: int)
    requires
        0 <= i < j < s.len(),
    ensures
        ({
            let (a, b) = (sorted_hits(s)[i], sorted_hits(s)[j]);
            text_before(a.path, b.path) || (a.path == b.path && a.line <= b.line)
        }),
{
    law_sorted_hits(s);
    let (a, b) = (sorted_hits(s)[i], sorted_hits(s)[j]);
    assert(!hit_before(b, a));
    lemma_text_before_total(a.path, b.path);
}

/// The hits on one line of one file.
pub open spec fn hits_at(s: Seq<HitView>, path: Seq<char>, line: u32) -> Seq<HitView> {
    s.filter(|h: HitView| h.path == path && h.line == line)
}

proof fn lemma_insert_keeps(s: Seq<HitView>, x: HitView, path: Seq<char>, line: u32)
    ensures
        hits_at(insert_sorted(s, x), path, line) == if x.path == path && x.line == line {
            hits_at(s, path, line).push(x)
        } else {
            hits_at(s, path, line)
        },
    decreases s.len(),
{
    reveal(Seq::filter);
    if s.len() > 0 && hit_before(x, s.last()) {
        lemma_insert_keeps(s.drop_last(), x, path, line);
        let inner = insert_sorted(s.drop_last(), x);
        assert(inner.push(s.last()).drop_last() =~= inner);
        if x.path == path && x.line == line {
            lemma_text_before_irreflexive(path);
        }
    } else {
        assert(s.push(x).drop_last() =~= s);
    }
}

/// Hits on the same line of the same file stay in the order in which they came.
pub proof fn law_sorting_is_stable(s: Seq<HitView>, path: Seq<char>, line: u32)
    ensures
        hits_at(sorted_hits(s), path, line) == hits_at(s, path, line),
    decreases s.len(),
{
    reveal(Seq::filter);
    if s.len() > 0 {
        law_sorting_is_stable(s.drop_last(), path, line);
        lemma_insert_keeps(sorted_hits(s.drop_last()), s.last(), path, line);
    }
}

/// A file that counts as a hit is kept with line zero and no text, as long as fewer
/// hits were found than are wanted. Once as many were found, it is counted and the
/// search may stop.
pub proof fn law_files_are_kept(c: Collected, path: Seq<char>)
    requires
        c.found < usize::MAX,
        c.hits.len() <= c.found,
    ensures
        c.with_path(path).found == c.found + 1,
        c.with_path(path).take == c.take,
        c.found < c.take ==> {
            let kept = c.with_path(path).hits;
            &&& kept.len() == c.hits.len() + 1
            &&& kept.drop_last() == c.hits
            &&& kept.last().path == path
            &&& kept.last().line == 0
            &&& kept.last().text.len() == 0
            &&& kept.last().ranges.len() == 0
            &&& kept.last().before.len() == 0
            &&& kept.last().after.len() == 0
            &&& c.with_path(path).stop == c.stop
        },
        c.found >= c.take ==> c.with_path(path).hits == c.hits && c.with_path(path).stop,
{
    if c.found < c.take {
        assert(c.with_path(path).hits.drop_last() =~= c.hits);
    }
}

/// What a file gave is taken into account as it is: nothing changes nothing, a file
/// counts as one hit, and lines count one by one.
pub proof fn law_findings_are_noted(c: Collected, path: Seq<char>, hits: Vec<GrepHit>)
    requires
        c.hits.len() <= c.found,
        c.found + hits@.len() <= usize::MAX,
    ensures
        c.with_finding(path, Finding::Nothing) == c,
        c.with_finding(path, Finding::File) == c.with_path(path),
        ({
            let with = c.with_finding(path, Finding::Lines(hits));
            &&& with.found == c.found + hits@.len()
            &&& with.take == c.take
            &&& c.hits.len() <= with.hits.len() <= c.hits.len() + hits@.len()
            &&& forall|i: int| 0 <= i < c.hits.len() ==> #[trigger] with.hits[i] == c.hits[i]
            &&& forall|i: int|
                c.hits.len() <= i < with.hits.len() ==> #[trigger] with.hits[i]
                    == hits@[i - c.hits.len()]@
            &&& c.found + hits@.len() <= c.take ==> with.hits.len() == c.hits.len() + hits@.len()
        }),
{
}

} // verus!
