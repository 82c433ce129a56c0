//! How often each of a list of texts occurs.

use vstd::prelude::*;

use crate::hits::distinct_texts;
use crate::hits::insert_unique;
use crate::hits::law_distinct_texts;
use crate::text::is_before;
use crate::text::lemma_text_before_irreflexive;
use crate::text::text_before;
use crate::text::texts;

verus! {

/// A text and how often it occurs.
#[derive(Debug)]
pub struct Tally {
    /// The text.
    pub name: String,
    /// How often it occurs.
    pub count: usize,
}

/// What each of a list of tallies says.
pub open spec fn tally_views(v: Seq<Tally>) -> Seq<(Seq<char>, int)> {
    v.map_values(|t: Tally| (t.name@, t.count as int))
}

/// The tallies, which are in order, once a text more has been counted.
pub open spec fn with_one_more(counts: Seq<(Seq<char>, int)>, name: Seq<char>) -> Seq<
    (Seq<char>, int),
>
    decreases counts.len(),
{
    if counts.len() == 0 {
        seq![(name, 1int)]
    } else if counts.last().0 == name {
        counts.drop_last().push((name, counts.last().1 + 1))
    } else if text_before(counts.last().0, name) {
        counts.push((name, 1int))
    } else {
        with_one_more(counts.drop_last(), name).push(counts.last())
    }
}

/// How often each text occurs, in the order of the texts.
pub open spec fn tallied(names: Seq<Seq<char>>) -> Seq<(Seq<char>, int)>
    decreases names.len(),
{
    if names.len() == 0 {
        seq![]
    } else {
        with_one_more(tallied(names.drop_last()), names.last())
    }
}

/// How often a text occurs.
pub open spec fn occurrences(names: Seq<Seq<char>>, name: Seq<char>) -> int
    decreases names.len(),
{
    if names.len() == 0 {
        0
    } else {
        occurrences(names.drop_last(), name) + if names.last() == name {
            1int
        } else {
            0
        }
    }
}

/// How often the tallies say that a text occurs.
pub open spec fn count_for(counts: Seq<(Seq<char>, int)>, name: Seq<char>) -> int
    decreases counts.len(),
{
    if counts.len() == 0 {
        0
    } else {
        count_for(counts.drop_last(), name) + if counts.last().0 == name {
            counts.last().1
        } else {
            0
        }
    }
}

/// The texts of tallies.
pub open spec fn tally_names(counts: Seq<(Seq<char>, int)>) -> Seq<Seq<char>> {
    counts.map_values(|c: (Seq<char>, int)| c.0)
}

proof fn lemma_one_more(counts: Seq<(Seq<char>, int)>, name: Seq<char>, other: Seq<char>)
    ensures
        count_for(with_one_more(counts, name), other) == count_for(counts, other) + if name
            == other {
            1int
        } else {
            0
        },
        tally_names(with_one_more(counts, name)) == insert_unique(tally_names(counts), name),
    decreases counts.len(),
{
    let after = with_one_more(counts, name);
    if counts.len() == 0 {
        assert(after.drop_last() =~= seq![]);
        assert(count_for(after.drop_last(), other) == 0);
        assert(tally_names(after) =~= seq![name]);
    } else {
        let front = counts.drop_last();
        assert(tally_names(counts).drop_last() =~= tally_names(front));
        assert(tally_names(counts).last() == counts.last().0);
        if counts.last().0 == name {
            assert(after.drop_last() =~= front);
            assert(tally_names(after) =~= tally_names(counts));
        } else if text_before(counts.last().0, name) {
            assert(after.drop_last() =~= counts);
            assert(tally_names(after) =~= tally_names(counts).push(name));
        } else {
            lemma_one_more(front, name, other);
            assert(after.drop_last() =~= with_one_more(front, name));
            assert(tally_names(after) =~= tally_names(with_one_more(front, name)).push(
                counts.last().0,
            ));
        }
    }
}

/// A tally names each text of a list once, in order, with how often it occurs.
pub proof fn law_tally_counts(names: Seq<Seq<char>>, name: Seq<char>)
    ensures
        count_for(tallied(names), name) == occurrences(names, name),
        tally_names(tallied(names)) == distinct_texts(names),
    decreases names.len(),
{
    if names.len() == 0 {
        assert(tally_names(tallied(names)) =~= seq![]);
    } else {
        law_tally_counts(names.drop_last(), name);
        lemma_one_more(tallied(names.drop_last()), names.last(), name);
    }
}

/// No tally says more than `most`.
spec fn at_most_each(v: Seq<Tally>, most: int) -> bool {
    forall|i: int| 0 <= i < v.len() ==> (#[trigger] v[i]).count <= most
}

/// Counts a text.
fn count_one(list: &mut Vec<Tally>, name: &str, Ghost(most): Ghost<int>)
    requires
        0 <= most < usize::MAX,
        at_most_each(old(list)@, most),
    ensures
        tally_views(final(list)@) == with_one_more(tally_views(old(list)@), name@),
        at_most_each(final(list)@, most + 1),
{
    let ghost all = tally_views(list@);
    let mut k: usize = list.len();
    assert(all.take(k as int) =~= all);
    assert(with_one_more(all.take(k as int), name@) + all.skip(k as int) =~= with_one_more(
        all,
        name@,
    ));
    loop
        invariant
            list@ == old(list)@,
            all == tally_views(list@),
            0 <= most < usize::MAX,
            at_most_each(list@, most),
            k <= list@.len(),
            with_one_more(all.take(k as int), name@) + all.skip(k as int) == with_one_more(
                all,
                name@,
            ),
        ensures
            with_one_more(all.take(k as int), name@) == all.take(k as int).push((name@, 1int)),
        decreases k,
    {
        if k == 0 {
            assert(all.take(0).push((name@, 1int)) =~= seq![(name@, 1int)]);
            break;
        }
        let ghost head = all.take(k as int);
        assert(head.last() == (list@[k - 1].name@, list@[k - 1].count as int));
        if *list[k - 1].name.as_str() == *name {
            let fresh = Tally { name: name.to_owned(), count: list[k - 1].count + 1 };
            list.set(k - 1, fresh);
            assert(tally_views(list@) =~= head.drop_last().push((name@, head.last().1 + 1))
                + all.skip(k as int));
            return;
        }
        if is_before(list[k - 1].name.as_str(), name) {
            break;
        }
        assert(head.drop_last() =~= all.take(k - 1));
        assert(with_one_more(all.take(k - 1), name@) + all.skip(k - 1) =~= with_one_more(
            all.take(k - 1),
            name@,
        ).push(head.last()) + all.skip(k as int));
        k = k - 1;
    }
    list.insert(k, Tally { name: name.to_owned(), count: 1 });
    assert(tally_views(list@) =~= all.take(k as int).push((name@, 1int)) + all.skip(k as int));
}

/// How often each text occurs, in the order of the texts.
pub fn tally(names: &Vec<String>) -> (res: Vec<Tally>)
    ensures
        tally_views(res@) == tallied(texts(names@)),
{
    let ghost all = texts(names@);
    let mut res: Vec<Tally> = Vec::new();
    let mut i: usize = 0;
    assert(all.take(0) =~= seq![]);
    assert(tally_views(res@) =~= seq![]);
    while i < names.len()
        invariant
            i <= names@.len(),
            names@.len() == names.len(),
            all == texts(names@),
            at_most_each(res@, i as int),
            tally_views(res@) == tallied(all.take(i as int)),
        decreases names@.len() - i,
    {
        assert(all.take(i + 1).drop_last() =~= all.take(i as int));
        assert(all.take(i + 1).last() == names@[i as int]@);
        count_one(&mut res, names[i].as_str(), Ghost(i as int));
        i = i + 1;
    }
    assert(all.take(i as int) =~= all);
    res
}

/// The first tally stands before the second in a ranking: it counts more, or as
/// much and its text comes first.
pub open spec fn outranks(a: (Seq<char>, int), b: (Seq<char>, int)) -> bool {
    a.1 > b.1 || (a.1 == b.1 && text_before(a.0, b.0))
}

/// A ranking with a tally more, behind all that count as much or more.
pub open spec fn rank_one(ranking: Seq<(Seq<char>, int)>, c: (Seq<char>, int)) -> Seq<
    (Seq<char>, int),
>
    decreases ranking.len(),
{
    if ranking.len() == 0 {
        seq![c]
    } else if ranking.last().1 >= c.1 {
        ranking.push(c)
    } else {
        rank_one(ranking.drop_last(), c).push(ranking.last())
    }
}

/// Tallies by how much they count, the largest first, and else in their order.
pub open spec fn ranked(counts: Seq<(Seq<char>, int)>) -> Seq<(Seq<char>, int)>
    decreases counts.len(),
{
    if counts.len() == 0 {
        seq![]
    } else {
        rank_one(ranked(counts.drop_last()), counts.last())
    }
}

proof fn lemma_rank_one(ranking: Seq<(Seq<char>, int)>, c: (Seq<char>, int))
    requires
        forall|i: int, j: int|
            0 <= i < j < ranking.len() ==> outranks(#[trigger] ranking[i], #[trigger] ranking[j]),
        forall|i: int| 0 <= i < ranking.len() ==> text_before((#[trigger] ranking[i]).0, c.0),
    ensures
        forall|i: int, j: int|
            0 <= i < j < rank_one(ranking, c).len() ==> outranks(
                #[trigger] rank_one(ranking, c)[i],
                #[trigger] rank_one(ranking, c)[j],
            ),
        forall|i: int|
            0 <= i < rank_one(ranking, c).len() ==> (#[trigger] rank_one(ranking, c)[i]) == c
                || ranking.contains(rank_one(ranking, c)[i]),
        rank_one(ranking, c).to_multiset() == ranking.to_multiset().insert(c),
    decreases ranking.len(),
{
    broadcast use vstd::seq_lib::group_to_multiset_ensures;

    let after = rank_one(ranking, c);
    if ranking.len() == 0 {
        assert(ranking =~= seq![]);
        assert(after =~= ranking.push(c));
    } else if ranking.last().1 >= c.1 {
        let last = ranking.len() - 1;
        assert forall|i: int, j: int| 0 <= i < j < after.len() implies outranks(
            #[trigger] after[i],
            #[trigger] after[j],
        ) by {
            assert(after[i] == ranking[i]);
            if j < ranking.len() {
                assert(after[j] == ranking[j]);
            } else if i < last {
                assert(outranks(ranking[i], ranking[last]));
            }
        }
        assert forall|i: int| 0 <= i < after.len() implies (#[trigger] after[i]) == c
            || ranking.contains(after[i]) by {
            if i < ranking.len() {
                assert(after[i] == ranking[i]);
            }
        }
    } else {
        let front = ranking.drop_last();
        let last = ranking.last();
        let rest = rank_one(front, c);
        assert forall|i: int, j: int| 0 <= i < j < front.len() implies outranks(
            #[trigger] front[i],
            #[trigger] front[j],
        ) by {
            assert(front[i] == ranking[i] && front[j] == ranking[j]);
        }
        assert forall|i: int| 0 <= i < front.len() implies text_before(
            (#[trigger] front[i]).0,
            c.0,
        ) by {
            assert(front[i] == ranking[i]);
        }
        lemma_rank_one(front, c);
        assert forall|i: int, j: int| 0 <= i < j < after.len() implies outranks(
            #[trigger] after[i],
            #[trigger] after[j],
        ) by {
            assert(after[i] == rest[i]);
            if j < rest.len() {
                assert(after[j] == rest[j]);
            } else if rest[i] != c {
                let k = front.index_of(rest[i]);
                assert(ranking[k] == rest[i]);
                assert(outranks(ranking[k], ranking[ranking.len() - 1]));
            }
        }
        assert forall|i: int| 0 <= i < after.len() implies (#[trigger] after[i]) == c
            || ranking.contains(after[i]) by {
            if i < rest.len() {
                assert(after[i] == rest[i]);
                if rest[i] != c {
                    assert(ranking[front.index_of(rest[i])] == rest[i]);
                }
            } else {
                assert(after[i] == ranking[ranking.len() - 1]);
            }
        }
        assert(ranking =~= front.push(last));
        assert(after.to_multiset() =~= ranking.to_multiset().insert(c));
    }
}

proof fn lemma_ranked(counts: Seq<(Seq<char>, int)>)
    requires
        forall|i: int, j: int|
            0 <= i < j < counts.len() ==> text_before(
                (#[trigger] counts[i]).0,
                (#[trigger] counts[j]).0,
            ),
    ensures
        forall|i: int, j: int|
            0 <= i < j < ranked(counts).len() ==> outranks(
                #[trigger] ranked(counts)[i],
                #[trigger] ranked(counts)[j],
            ),
        forall|i: int|
            0 <= i < ranked(counts).len() ==> counts.contains(#[trigger] ranked(counts)[i]),
        ranked(counts).to_multiset() == counts.to_multiset(),
    decreases counts.len(),
{
    broadcast use vstd::seq_lib::group_to_multiset_ensures;

    if counts.len() == 0 {
        assert(counts =~= seq![]);
    } else {
        let front = counts.drop_last();
        let before = ranked(front);
        assert forall|i: int, j: int| 0 <= i < j < front.len() implies text_before(
            (#[trigger] front[i]).0,
            (#[trigger] front[j]).0,
        ) by {
            assert(front[i] == counts[i] && front[j] == counts[j]);
        }
        lemma_ranked(front);
        assert forall|i: int| 0 <= i < before.len() implies text_before(
            (#[trigger] before[i]).0,
            counts.last().0,
        ) by {
            let k = front.index_of(before[i]);
            assert(counts[k] == before[i]);
            assert(text_before(counts[k].0, counts[counts.len() - 1].0));
        }
        lemma_rank_one(before, counts.last());
        let after = ranked(counts);
        assert forall|i: int| 0 <= i < after.len() implies counts.contains(
            #[trigger] after[i],
        ) by {
            if after[i] == counts.last() {
                assert(counts[counts.len() - 1] == after[i]);
            } else {
                let k = before.index_of(after[i]);
                assert(front.contains(before[k]));
                assert(counts[front.index_of(before[k])] == after[i]);
            }
        }
        assert(counts =~= front.push(counts.last()));
    }
}

proof fn lemma_no_count(counts: Seq<(Seq<char>, int)>, name: Seq<char>)
    requires
        forall|i: int| 0 <= i < counts.len() ==> (#[trigger] counts[i]).0 != name,
    ensures
        count_for(counts, name) == 0,
    decreases counts.len(),
{
    if counts.len() > 0 {
        let front = counts.drop_last();
        assert forall|i: int| 0 <= i < front.len() implies (#[trigger] front[i]).0 != name by {
            assert(front[i] == counts[i]);
        }
        assert(counts[counts.len() - 1].0 != name);
        lemma_no_count(front, name);
    }
}

proof fn lemma_own_count(counts: Seq<(Seq<char>, int)>, k: int)
    requires
        0 <= k < counts.len(),
        forall|i: int, j: int|
            0 <= i < j < counts.len() ==> (#[trigger] counts[i]).0 != (#[trigger] counts[j]).0,
    ensures
        count_for(counts, counts[k].0) == counts[k].1,
    decreases counts.len(),
{
    let front = counts.drop_last();
    let last = counts.len() - 1;
    if k == last {
        assert forall|i: int| 0 <= i < front.len() implies (#[trigger] front[i]).0
            != counts[k].0 by {
            assert(front[i] == counts[i]);
        }
        lemma_no_count(front, counts[k].0);
    } else {
        assert forall|i: int, j: int| 0 <= i < j < front.len() implies (#[trigger] front[i]).0
            != (#[trigger] front[j]).0 by {
            assert(front[i] == counts[i] && front[j] == counts[j]);
        }
        lemma_own_count(front, k);
        assert(front[k] == counts[k]);
        assert(counts[k].0 != counts[last].0);
    }
}

/// A ranking of the tallies of a list holds each of them once, with how often its
/// text occurs: the largest count first, and texts that occur equally often in
/// their order.
pub proof fn law_ranking(names: Seq<Seq<char>>)
    ensures
        ranked(tallied(names)).to_multiset() == tallied(names).to_multiset(),
        forall|i: int, j: int|
            0 <= i < j < ranked(tallied(names)).len() ==> outranks(
                #[trigger] ranked(tallied(names))[i],
                #[trigger] ranked(tallied(names))[j],
            ),
        forall|i: int|
            0 <= i < ranked(tallied(names)).len() ==> (#[trigger] ranked(tallied(names))[i]).1
                == occurrences(names, ranked(tallied(names))[i].0),
{
    let counts = tallied(names);
    law_tally_counts(names, seq![]);
    law_distinct_texts(names);
    assert forall|i: int, j: int| 0 <= i < j < counts.len() implies text_before(
        (#[trigger] counts[i]).0,
        (#[trigger] counts[j]).0,
    ) by {
        assert(tally_names(counts)[i] == counts[i].0);
        assert(tally_names(counts)[j] == counts[j].0);
    }
    lemma_ranked(counts);
    assert forall|i: int, j: int| 0 <= i < j < counts.len() implies (#[trigger] counts[i]).0
        != (#[trigger] counts[j]).0 by {
        lemma_text_before_irreflexive(counts[i].0);
        assert(text_before(counts[i].0, counts[j].0));
    }
    let list = ranked(counts);
    assert forall|i: int| 0 <= i < list.len() implies (#[trigger] list[i]).1 == occurrences(
        names,
        list[i].0,
    ) by {
        let k = counts.index_of(list[i]);
        lemma_own_count(counts, k);
        law_tally_counts(names, list[i].0);
    }
}

/// Puts a tally into a ranking.
fn rank_tally(list: &mut Vec<Tally>, c: Tally)
    ensures
        tally_views(final(list)@) == rank_one(tally_views(old(list)@), (c.name@, c.count as int)),
{
    let ghost all = tally_views(list@);
    let ghost shown = (c.name@, c.count as int);
    let mut k: usize = list.len();
    assert(all.take(k as int) =~= all);
    assert(rank_one(all.take(k as int), shown) + all.skip(k as int) =~= rank_one(all, shown));
    while k > 0 && list[k - 1].count < c.count
        invariant
            list@ == old(list)@,
            all == tally_views(list@),
            shown == (c.name@, c.count as int),
            k <= list@.len(),
            rank_one(all.take(k as int), shown) + all.skip(k as int) == rank_one(all, shown),
        decreases k,
    {
        let ghost head = all.take(k as int);
        assert(head.last() == (list@[k - 1].name@, list@[k - 1].count as int));
        assert(head.drop_last() =~= all.take(k - 1));
        assert(rank_one(all.take(k - 1), shown) + all.skip(k - 1) =~= rank_one(
            all.take(k - 1),
            shown,
        ).push(head.last()) + all.skip(k as int));
        k = k - 1;
    }
    proof {
        let head = all.take(k as int);
        if k > 0 {
            assert(head.last() == (list@[k - 1].name@, list@[k - 1].count as int));
        }
        assert(rank_one(head, shown) =~= head.push(shown));
    }
    list.insert(k, c);
    assert(tally_views(list@) =~= all.take(k as int).push(shown) + all.skip(k as int));
}

/// Tallies by how much they count, the largest first, and else in their order.
pub fn rank(counts: &Vec<Tally>) -> (res: Vec<Tally>)
    ensures
        tally_views(res@) == ranked(tally_views(counts@)),
{
    let ghost all = tally_views(counts@);
    let mut res: Vec<Tally> = Vec::new();
    let mut i: usize = 0;
    assert(all.take(0) =~= seq![]);
    assert(tally_views(res@) =~= seq![]);
    while i < counts.len()
        invariant
            i <= counts@.len(),
            all == tally_views(counts@),
            tally_views(res@) == ranked(all.take(i as int)),
        decreases counts@.len() - i,
    {
        assert(all.take(i + 1).drop_last() =~= all.take(i as int));
        assert(all.take(i + 1).last() == (counts@[i as int].name@, counts@[i as int].count as int));
        rank_tally(&mut res, Tally { name: counts[i].name.clone(), count: counts[i].count });
        i = i + 1;
    }
    assert(all.take(i as int) =~= all);
    res
}

/// A ranking goes by the counts, the largest first, and where they are the same by
/// the names. Each name has as many as it occurs among all names.
pub proof fn law_ranking_goes_by_count_and_name(names: Seq<Seq<char>>, i: int, j: int)
    requires
        0 <= i < j < ranked(tallied(names)).len(),
    ensures
        ({
            let (a, b) = (ranked(tallied(names))[i], ranked(tallied(names))[j]);
            &&& a.1 >= b.1
            &&& a.1 == b.1 ==> text_before(a.0, b.0)
            &&& a.0 != b.0
        }),
{
    law_ranking(names);
    let (a, b) = (ranked(tallied(names))[i], ranked(tallied(names))[j]);
    assert(outranks(a, b));
    if a.0 == b.0 {
        lemma_text_before_irreflexive(a.0);
    }
}

/// Occurrences are counted name by name.
pub proof fn law_occurrences(names: Seq<Seq<char>>, one: Seq<char>, name: Seq<char>)
    ensures
        occurrences(seq![], name) == 0,
        occurrences(names.push(one), name) == occurrences(names, name) + (if one == name {
            1int
        } else {
            0
        }),
{
    assert(names.push(one).drop_last() =~= names);
}

} // verus!
