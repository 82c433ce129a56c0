//! A map of the workspace: its upper directories, and how many files lie below
//! each.

use vstd::prelude::*;
use vstd::string::StringExecFns;

use crate::paths::components;
use crate::paths::components_of;
use crate::paths::display_path;
use crate::paths::join;
use crate::paths::joined;
use crate::paths::shown_path;
use crate::search::lesser;
use crate::text::decimal;
use crate::text::is_before;
use crate::text::lemma_text_before_irreflexive;
use crate::text::lemma_text_before_total;
use crate::text::lemma_text_before_transitive;
use crate::text::text_before;
use crate::text::texts;
use crate::text::to_decimal;

verus! {

/// How a component of a path ranks: the root, the current directory and the
/// parent directory stand before names.
pub open spec fn rank(c: Seq<char>) -> int {
    if c == seq!['/'] {
        0
    } else if c == seq!['.'] {
        1
    } else if c == seq!['.', '.'] {
        2
    } else {
        3
    }
}

/// The order of components.
pub open spec fn component_before(a: Seq<char>, b: Seq<char>) -> bool {
    rank(a) < rank(b) || (rank(a) == rank(b) && text_before(a, b))
}

/// The order of paths, component by component.
pub open spec fn path_before(a: Seq<Seq<char>>, b: Seq<Seq<char>>) -> bool
    decreases a.len(),
{
    if b.len() == 0 {
        false
    } else if a.len() == 0 {
        true
    } else if a[0] == b[0] {
        path_before(a.skip(1), b.skip(1))
    } else {
        component_before(a[0], b[0])
    }
}

/// A place in the map.
pub struct Place {
    key: Vec<String>,
    count: usize,
}

/// What a place says: the components of its path, and how many files lie below
/// it.
#[verifier::ext_equal]
pub struct PlaceView {
    pub key: Seq<Seq<char>>,
    pub count: int,
}

impl View for Place {
    type V = PlaceView;

    closed spec fn view(&self) -> PlaceView {
        PlaceView { key: texts(self.key@), count: self.count as int }
    }
}

/// What each place of a list says.
pub open spec fn place_views(v: Seq<Place>) -> Seq<PlaceView> {
    v.map_values(|p: Place| p@)
}

/// The places once a file below `key` has been counted.
pub open spec fn counted(places: Seq<PlaceView>, key: Seq<Seq<char>>) -> Seq<PlaceView>
    decreases places.len(),
{
    if places.len() == 0 {
        seq![PlaceView { key, count: 1 }]
    } else if places.last().key == key {
        places.drop_last().push(PlaceView { key, count: places.last().count + 1 })
    } else if path_before(places.last().key, key) {
        places.push(PlaceView { key, count: 1 })
    } else {
        counted(places.drop_last(), key).push(places.last())
    }
}

/// The places once a file has been counted at the first `n` of its components.
pub open spec fn counted_upto(places: Seq<PlaceView>, parts: Seq<Seq<char>>, n: int) -> Seq<
    PlaceView,
>
    decreases n,
{
    if n <= 0 {
        places
    } else {
        counted(counted_upto(places, parts, n - 1), parts.take(n))
    }
}

/// How many components of a path the map shows.
pub open spec fn shown_depth(parts: Seq<Seq<char>>, depth: int) -> int {
    lesser(parts.len() as int, depth)
}

/// The places of files.
pub open spec fn places_of(root: Seq<char>, files: Seq<Seq<char>>, depth: int) -> Seq<PlaceView>
    decreases files.len(),
{
    if files.len() == 0 {
        seq![]
    } else {
        let parts = components(shown_path(root, files.last()));
        counted_upto(
            places_of(root, files.drop_last(), depth),
            parts,
            shown_depth(parts, depth),
        )
    }
}

/// The path of a place.
pub open spec fn path_text(key: Seq<Seq<char>>) -> Seq<char>
    decreases key.len(),
{
    if key.len() == 0 {
        seq![]
    } else {
        joined(path_text(key.drop_last()), key.last())
    }
}

/// A place as a line.
pub open spec fn place_line(p: PlaceView) -> Seq<char> {
    path_text(p.key).push('\t') + decimal(p.count as nat)
}

/// The lines of a map.
pub open spec fn map_lines(root: Seq<char>, files: Seq<Seq<char>>, depth: int) -> Seq<Seq<char>> {
    places_of(root, files, depth).map_values(|p: PlaceView| place_line(p))
}

/// How many files the places count below `key`.
pub open spec fn count_at(places: Seq<PlaceView>, key: Seq<Seq<char>>) -> int
    decreases places.len(),
{
    if places.len() == 0 {
        0
    } else {
        count_at(places.drop_last(), key) + if places.last().key == key {
            places.last().count
        } else {
            0
        }
    }
}

/// The file lies below `key`, which the map shows.
pub open spec fn lies_below(parts: Seq<Seq<char>>, key: Seq<Seq<char>>, depth: int) -> bool {
    0 < key.len() <= shown_depth(parts, depth) && parts.take(key.len() as int) == key
}

/// How many of the files lie below `key`.
pub open spec fn files_below(
    root: Seq<char>,
    files: Seq<Seq<char>>,
    key: Seq<Seq<char>>,
    depth: int,
) -> int
    decreases files.len(),
{
    if files.len() == 0 {
        0
    } else {
        files_below(root, files.drop_last(), key, depth) + if lies_below(
            components(shown_path(root, files.last())),
            key,
            depth,
        ) {
            1int
        } else {
            0
        }
    }
}

proof fn lemma_counted(places: Seq<PlaceView>, key: Seq<Seq<char>>, other: Seq<Seq<char>>)
    ensures
        count_at(counted(places, key), other) == count_at(places, other) + if key == other {
            1int
        } else {
            0
        },
    decreases places.len(),
{
    let after = counted(places, key);
    if places.len() == 0 {
        assert(after.drop_last() =~= seq![]);
        assert(count_at(after.drop_last(), other) == 0);
    } else if places.last().key == key {
        assert(after.drop_last() =~= places.drop_last());
    } else if path_before(places.last().key, key) {
        assert(after.drop_last() =~= places);
    } else {
        lemma_counted(places.drop_last(), key, other);
        assert(after.drop_last() =~= counted(places.drop_last(), key));
    }
}

proof fn lemma_counted_upto(
    places: Seq<PlaceView>,
    parts: Seq<Seq<char>>,
    n: int,
    key: Seq<Seq<char>>,
)
    requires
        n <= parts.len(),
    ensures
        count_at(counted_upto(places, parts, n), key) == count_at(places, key) + if 0 < key.len()
            <= n && parts.take(key.len() as int) == key {
            1int
        } else {
            0
        },
    decreases n,
{
    if n > 0 {
        lemma_counted_upto(places, parts, n - 1, key);
        lemma_counted(counted_upto(places, parts, n - 1), parts.take(n), key);
        if parts.take(n) == key {
            assert(key.len() == n);
        }
    }
}

/// The map counts at each of its places the files that lie below it.
pub proof fn law_map_counts_files(
    root: Seq<char>,
    files: Seq<Seq<char>>,
    depth: int,
    key: Seq<Seq<char>>,
)
    ensures
        count_at(places_of(root, files, depth), key) == files_below(root, files, key, depth),
    decreases files.len(),
{
    if files.len() > 0 {
        law_map_counts_files(root, files.drop_last(), depth, key);
        let parts = components(shown_path(root, files.last()));
        lemma_counted_upto(
            places_of(root, files.drop_last(), depth),
            parts,
            shown_depth(parts, depth),
            key,
        );
    }
}

proof fn lemma_component_order(a: Seq<char>, b: Seq<char>, c: Seq<char>)
    ensures
        !component_before(a, a),
        component_before(a, b) && component_before(b, c) ==> component_before(a, c),
        component_before(a, b) || a == b || component_before(b, a),
{
    lemma_text_before_irreflexive(a);
    lemma_text_before_total(a, b);
    if text_before(a, b) && text_before(b, c) {
        lemma_text_before_transitive(a, b, c);
    }
}

proof fn lemma_path_irreflexive(a: Seq<Seq<char>>)
    ensures
        !path_before(a, a),
    decreases a.len(),
{
    if a.len() > 0 {
        lemma_path_irreflexive(a.skip(1));
    }
}

proof fn lemma_path_total(a: Seq<Seq<char>>, b: Seq<Seq<char>>)
    ensures
        path_before(a, b) || a == b || path_before(b, a),
    decreases a.len(),
{
    if a.len() == 0 || b.len() == 0 {
        if a.len() == b.len() {
            assert(a =~= b);
        }
    } else if a[0] == b[0] {
        lemma_path_total(a.skip(1), b.skip(1));
        if a.skip(1) == b.skip(1) {
            assert(a =~= seq![a[0]] + a.skip(1));
            assert(b =~= seq![b[0]] + b.skip(1));
        }
    } else {
        lemma_component_order(a[0], b[0], b[0]);
    }
}

proof fn lemma_path_transitive(a: Seq<Seq<char>>, b: Seq<Seq<char>>, c: Seq<Seq<char>>)
    requires
        path_before(a, b),
        path_before(b, c),
    ensures
        path_before(a, c),
    decreases a.len(),
{
    if a.len() > 0 {
        lemma_component_order(a[0], b[0], c[0]);
        if a[0] == b[0] && b[0] == c[0] {
            lemma_path_transitive(a.skip(1), b.skip(1), c.skip(1));
        } else if a[0] == c[0] {
            lemma_component_order(b[0], c[0], b[0]);
            lemma_component_order(b[0], b[0], b[0]);
        }
    }
}

/// The places stand in the order of their paths, each path once, and none of them
/// without a file.
pub open spec fn places_in_order(places: Seq<PlaceView>) -> bool {
    &&& forall|i: int, j: int|
        0 <= i < j < places.len() ==> path_before(
            (#[trigger] places[i]).key,
            (#[trigger] places[j]).key,
        )
    &&& forall|i: int| 0 <= i < places.len() ==> (#[trigger] places[i]).count > 0
}

proof fn lemma_counted_in_order(places: Seq<PlaceView>, key: Seq<Seq<char>>)
    requires
        places_in_order(places),
    ensures
        places_in_order(counted(places, key)),
        forall|i: int|
            0 <= i < counted(places, key).len() ==> (#[trigger] counted(places, key)[i]).key == key
                || exists|k: int|
                0 <= k < places.len() && (#[trigger] places[k]).key == counted(
                    places,
                    key,
                )[i].key,
    decreases places.len(),
{
    let after = counted(places, key);
    if places.len() > 0 {
        let last = places.len() - 1;
        let front = places.drop_last();
        if places.last().key == key {
            assert forall|i: int| 0 <= i < after.len() implies (#[trigger] after[i]).key
                == places[i].key && after[i].count > 0 by {
                if i < last {
                    assert(after[i] == places[i]);
                }
                assert(places[i].count > 0);
            }
            assert forall|i: int, j: int| 0 <= i < j < after.len() implies path_before(
                (#[trigger] after[i]).key,
                (#[trigger] after[j]).key,
            ) by {
                assert(path_before(places[i].key, places[j].key));
            }
        } else if path_before(places.last().key, key) {
            assert forall|i: int, j: int| 0 <= i < j < after.len() implies path_before(
                (#[trigger] after[i]).key,
                (#[trigger] after[j]).key,
            ) by {
                assert(after[i] == places[i]);
                if j < places.len() {
                    assert(after[j] == places[j]);
                } else if i < last {
                    assert(path_before(places[i].key, places[last].key));
                    lemma_path_transitive(places[i].key, places[last].key, key);
                }
            }
            assert forall|i: int| 0 <= i < after.len() implies (#[trigger] after[i]).count > 0 by {
                if i < places.len() {
                    assert(after[i] == places[i]);
                }
            }
        } else {
            lemma_path_total(places.last().key, key);
            let rest = counted(front, key);
            assert forall|i: int, j: int| 0 <= i < j < front.len() implies path_before(
                (#[trigger] front[i]).key,
                (#[trigger] front[j]).key,
            ) by {
                assert(front[i] == places[i] && front[j] == places[j]);
            }
            assert forall|i: int| 0 <= i < front.len() implies (#[trigger] front[i]).count > 0 by {
                assert(front[i] == places[i]);
            }
            lemma_counted_in_order(front, key);
            assert forall|i: int, j: int| 0 <= i < j < after.len() implies path_before(
                (#[trigger] after[i]).key,
                (#[trigger] after[j]).key,
            ) by {
                assert(after[i] == rest[i]);
                if j < rest.len() {
                    assert(after[j] == rest[j]);
                } else if rest[i].key != key {
                    let k = choose|k: int|
                        0 <= k < front.len() && (#[trigger] front[k]).key == rest[i].key;
                    assert(front[k] == places[k]);
                    assert(path_before(places[k].key, places[last].key));
                }
            }
            assert forall|i: int| 0 <= i < after.len() implies (#[trigger] after[i]).count > 0 && (
            after[i].key == key || exists|k: int|
                0 <= k < places.len() && (#[trigger] places[k]).key == after[i].key) by {
                if i < rest.len() {
                    assert(after[i] == rest[i]);
                    if rest[i].key != key {
                        let k = choose|k: int|
                            0 <= k < front.len() && (#[trigger] front[k]).key == rest[i].key;
                        assert(places[k].key == after[i].key);
                    }
                } else {
                    assert(places[last].key == after[i].key);
                }
            }
        }
    }
}

proof fn lemma_counted_upto_in_order(places: Seq<PlaceView>, parts: Seq<Seq<char>>, n: int)
    requires
        places_in_order(places),
    ensures
        places_in_order(counted_upto(places, parts, n)),
    decreases n,
{
    if n > 0 {
        lemma_counted_upto_in_order(places, parts, n - 1);
        lemma_counted_in_order(counted_upto(places, parts, n - 1), parts.take(n));
    }
}

proof fn lemma_places_in_order(root: Seq<char>, files: Seq<Seq<char>>, depth: int)
    ensures
        places_in_order(places_of(root, files, depth)),
    decreases files.len(),
{
    if files.len() > 0 {
        let front = files.drop_last();
        let parts = components(shown_path(root, files.last()));
        lemma_places_in_order(root, front, depth);
        lemma_counted_upto_in_order(
            places_of(root, front, depth),
            parts,
            shown_depth(parts, depth),
        );
    }
}

proof fn lemma_not_counted(places: Seq<PlaceView>, key: Seq<Seq<char>>)
    requires
        forall|i: int| 0 <= i < places.len() ==> (#[trigger] places[i]).key != key,
    ensures
        count_at(places, key) == 0,
    decreases places.len(),
{
    if places.len() > 0 {
        let front = places.drop_last();
        assert forall|i: int| 0 <= i < front.len() implies (#[trigger] front[i]).key != key by {
            assert(front[i] == places[i]);
        }
        assert(places[places.len() - 1].key != key);
        lemma_not_counted(front, key);
    }
}

proof fn lemma_counted_once(places: Seq<PlaceView>, k: int)
    requires
        0 <= k < places.len(),
        places_in_order(places),
    ensures
        count_at(places, places[k].key) == places[k].count,
    decreases places.len(),
{
    let front = places.drop_last();
    let last = places.len() - 1;
    assert forall|i: int, j: int| 0 <= i < j < front.len() implies path_before(
        (#[trigger] front[i]).key,
        (#[trigger] front[j]).key,
    ) by {
        assert(front[i] == places[i] && front[j] == places[j]);
    }
    assert forall|i: int| 0 <= i < front.len() implies (#[trigger] front[i]).count > 0 by {
        assert(front[i] == places[i]);
    }
    lemma_path_irreflexive(places[k].key);
    if k == last {
        assert forall|i: int| 0 <= i < front.len() implies (#[trigger] front[i]).key
            != places[k].key by {
            assert(front[i] == places[i]);
            assert(path_before(places[i].key, places[k].key));
        }
        lemma_not_counted(front, places[k].key);
    } else {
        assert(front[k] == places[k]);
        assert(path_before(places[k].key, places[last].key));
        lemma_counted_once(front, k);
    }
}

/// The rows of a map stand in the order of their paths, each path once. A path has
/// a row if and only if files lie below it, and the row says how many.
pub proof fn law_map_rows(root: Seq<char>, files: Seq<Seq<char>>, depth: int)
    ensures
        places_in_order(places_of(root, files, depth)),
        forall|i: int, j: int|
            0 <= i < j < places_of(root, files, depth).len() ==> (#[trigger] places_of(
                root,
                files,
                depth,
            )[i]).key != (#[trigger] places_of(root, files, depth)[j]).key,
        forall|i: int|
            0 <= i < places_of(root, files, depth).len() ==> (#[trigger] places_of(
                root,
                files,
                depth,
            )[i]).count == files_below(root, files, places_of(root, files, depth)[i].key, depth),
        forall|key: Seq<Seq<char>>| #[trigger]
            files_below(root, files, key, depth) > 0 ==> exists|i: int|
                0 <= i < places_of(root, files, depth).len() && (#[trigger] places_of(
                    root,
                    files,
                    depth,
                )[i]).key == key,
{
    let places = places_of(root, files, depth);
    lemma_places_in_order(root, files, depth);
    assert forall|i: int, j: int| 0 <= i < j < places.len() implies (#[trigger] places[i]).key != (
    #[trigger] places[j]).key by {
        lemma_path_irreflexive(places[i].key);
    }
    assert forall|i: int| 0 <= i < places.len() implies (#[trigger] places[i]).count
        == files_below(root, files, places[i].key, depth) by {
        lemma_counted_once(places, i);
        law_map_counts_files(root, files, depth, places[i].key);
    }
    assert forall|key: Seq<Seq<char>>| #[trigger]
        files_below(root, files, key, depth) > 0 implies exists|i: int|
        0 <= i < places.len() && (#[trigger] places[i]).key == key by {
        law_map_counts_files(root, files, depth, key);
        if forall|i: int| 0 <= i < places.len() ==> (#[trigger] places[i]).key != key {
            lemma_not_counted(places, key);
        }
    }
}

/// Whether one component stands before another.
fn is_component_before(a: &str, b: &str) -> (res: bool)
    ensures
        res == component_before(a@, b@),
{
    let (ra, rb) = (rank_of(a), rank_of(b));
    ra < rb || (ra == rb && is_before(a, b))
}

/// How a component ranks.
fn rank_of(c: &str) -> (res: u8)
    ensures
        res == rank(c@),
{
    proof {
        reveal_strlit("/");
        reveal_strlit(".");
        reveal_strlit("..");
        assert("/"@ =~= seq!['/']);
        assert("."@ =~= seq!['.']);
        assert(".."@ =~= seq!['.', '.']);
    }
    if *c == *"/" {
        0
    } else if *c == *"." {
        1
    } else if *c == *".." {
        2
    } else {
        3
    }
}

/// How a path compares with the first `n` components of another.
enum Compared {
    Before,
    Same,
    After,
}

/// Compares a path with the first `n` components of another.
fn compare(a: &Vec<String>, b: &Vec<String>, n: usize) -> (res: Compared)
    requires
        n <= b@.len(),
    ensures
        match res {
            Compared::Same => texts(a@) == texts(b@).take(n as int),
            Compared::Before => texts(a@) != texts(b@).take(n as int) && path_before(
                texts(a@),
                texts(b@).take(n as int),
            ),
            Compared::After => texts(a@) != texts(b@).take(n as int) && !path_before(
                texts(a@),
                texts(b@).take(n as int),
            ),
        },
{
    let ghost x = texts(a@);
    let ghost y = texts(b@).take(n as int);
    let mut i: usize = 0;
    assert(x.skip(0) =~= x);
    assert(y.skip(0) =~= y);
    while i < a.len() && i < n
        invariant
            i <= a@.len(),
            i <= n <= b@.len(),
            x == texts(a@),
            y == texts(b@).take(n as int),
            path_before(x, y) == path_before(x.skip(i as int), y.skip(i as int)),
            forall|k: int| 0 <= k < i ==> x[k] == y[k],
        decreases n - i,
    {
        assert(x.skip(i as int)[0] == a@[i as int]@);
        assert(y.skip(i as int)[0] == b@[i as int]@);
        assert(x.skip(i as int).skip(1) =~= x.skip(i + 1));
        assert(y.skip(i as int).skip(1) =~= y.skip(i + 1));
        if !(*a[i].as_str() == *b[i].as_str()) {
            assert(x[i as int] != y[i as int]);
            return if is_component_before(a[i].as_str(), b[i].as_str()) {
                Compared::Before
            } else {
                Compared::After
            };
        }
        i = i + 1;
    }
    if i < n {
        assert(x.len() != y.len());
        Compared::Before
    } else if i < a.len() {
        assert(x.len() != y.len());
        Compared::After
    } else {
        assert(x =~= y);
        Compared::Same
    }
}

/// The first `n` components of a path.
fn first_parts(parts: &Vec<String>, n: usize) -> (res: Vec<String>)
    requires
        n <= parts@.len(),
    ensures
        texts(res@) == texts(parts@).take(n as int),
{
    let mut res: Vec<String> = Vec::new();
    let mut i: usize = 0;
    while i < n
        invariant
            i <= n <= parts@.len(),
            res@.len() == i,
            forall|k: int| 0 <= k < i ==> (#[trigger] res@[k])@ == parts@[k]@,
        decreases n - i,
    {
        res.push(parts[i].clone());
        i = i + 1;
    }
    assert(texts(res@) =~= texts(parts@).take(n as int));
    res
}

/// No place counts more than `most`, and one with more than `len` components
/// no more than `done`.
spec fn room_left(places: Seq<Place>, len: int, done: int, most: int) -> bool {
    forall|i: int|
        0 <= i < places.len() ==> (#[trigger] places[i]).count <= most && (places[i].key@.len()
            > len ==> places[i].count <= done)
}

/// Counts a file at the first `n` of its components.
fn count_place(places: &mut Vec<Place>, parts: &Vec<String>, n: usize, Ghost(done): Ghost<int>)
    requires
        0 < n <= parts@.len(),
        0 <= done < usize::MAX,
        room_left(old(places)@, n - 1, done, done + 1),
    ensures
        place_views(final(places)@) == counted(
            place_views(old(places)@),
            texts(parts@).take(n as int),
        ),
        room_left(final(places)@, n as int, done, done + 1),
{
    let ghost all = place_views(places@);
    let ghost key = texts(parts@).take(n as int);
    let mut k: usize = places.len();
    assert(all.take(k as int) =~= all);
    assert(counted(all.take(k as int), key) + all.skip(k as int) =~= counted(all, key));
    loop
        invariant
            places@ == old(places)@,
            all == place_views(places@),
            key == texts(parts@).take(n as int),
            0 < n <= parts@.len(),
            0 <= done < usize::MAX,
            room_left(places@, n - 1, done, done + 1),
            k <= places@.len(),
            counted(all.take(k as int), key) + all.skip(k as int) == counted(all, key),
        ensures
            counted(all.take(k as int), key) == all.take(k as int).push(
                PlaceView { key, count: 1 },
            ),
        decreases k,
    {
        if k == 0 {
            assert(all.take(0).push(PlaceView { key, count: 1 }) =~= seq![
                PlaceView { key, count: 1 },
            ]);
            break;
        }
        let ghost head = all.take(k as int);
        assert(head.last() == places@[k - 1]@);
        match compare(&places[k - 1].key, parts, n) {
            Compared::Same => {
                assert(texts(places@[k - 1].key@).len() == places@[k - 1].key@.len());
                let count = places[k - 1].count + 1;
                let fresh = Place { key: first_parts(parts, n), count };
                let ghost changed = fresh@;
                assert(texts(fresh.key@).len() == fresh.key@.len());
                places.set(k - 1, fresh);
                assert(place_views(places@) =~= head.drop_last().push(changed) + all.skip(
                    k as int,
                ));
                return;
            },
            Compared::Before => {
                break;
            },
            Compared::After => {
                assert(head.drop_last() =~= all.take(k - 1));
                assert(counted(all.take(k - 1), key) + all.skip(k - 1) =~= counted(
                    all.take(k - 1),
                    key,
                ).push(head.last()) + all.skip(k as int));
                k = k - 1;
            },
        }
    }
    let fresh = Place { key: first_parts(parts, n), count: 1 };
    assert(texts(fresh.key@).len() == fresh.key@.len());
    let ghost added = fresh@;
    places.insert(k, fresh);
    assert(place_views(places@) =~= all.take(k as int).push(added) + all.skip(k as int));
}

/// The path of a place.
fn place_path(key: &Vec<String>) -> (res: String)
    ensures
        res@ == path_text(texts(key@)),
{
    let ghost all = texts(key@);
    let mut res = String::new();
    let mut i: usize = 0;
    assert(all.take(0) =~= seq![]);
    assert(res@ =~= seq![]);
    while i < key.len()
        invariant
            i <= key@.len(),
            all == texts(key@),
            res@ == path_text(all.take(i as int)),
        decreases key@.len() - i,
    {
        assert(all.take(i + 1).drop_last() =~= all.take(i as int));
        assert(all.take(i + 1).last() == key@[i as int]@);
        res = join(res.as_str(), key[i].as_str());
        i = i + 1;
    }
    assert(all.take(i as int) =~= all);
    res
}

/// A map of the files, `depth` levels deep: a line for each place, with how
/// many files lie below it.
pub fn render_simple_map(root: &str, files: &Vec<String>, depth: usize) -> (res: Vec<String>)
    ensures
        texts(res@) == map_lines(root@, texts(files@), depth as int),
{
    let ghost all = texts(files@);
    let mut places: Vec<Place> = Vec::new();
    let mut i: usize = 0;
    assert(all.take(0) =~= seq![]);
    assert(place_views(places@) =~= seq![]);
    while i < files.len()
        invariant
            i <= files@.len(),
            all == texts(files@),
            room_left(places@, 0, i as int, i as int),
            place_views(places@) == places_of(root@, all.take(i as int), depth as int),
        decreases files@.len() - i,
    {
        let shown = display_path(root, files[i].as_str());
        let parts = components_of(shown.as_str());
        let ghost before = place_views(places@);
        let ghost p = components(shown@);
        assert(texts(parts@).len() == parts@.len());
        let n: usize = if parts.len() <= depth {
            parts.len()
        } else {
            depth
        };
        let mut j: usize = 0;
        while j < n
            invariant
                i < files@.len(),
                files@.len() == files.len(),
                j <= n <= parts@.len(),
                texts(parts@) == p,
                room_left(places@, j as int, i as int, i + 1),
                place_views(places@) == counted_upto(before, p, j as int),
            decreases n - j,
        {
            count_place(&mut places, &parts, j + 1, Ghost(i as int));
            j = j + 1;
        }
        assert(all.take(i + 1).drop_last() =~= all.take(i as int));
        assert(all.take(i + 1).last() == files@[i as int]@);
        i = i + 1;
    }
    assert(all.take(i as int) =~= all);
    let ghost wanted = map_lines(root@, all, depth as int);
    let mut res: Vec<String> = Vec::new();
    let mut k: usize = 0;
    while k < places.len()
        invariant
            k <= places@.len(),
            place_views(places@) == places_of(root@, all, depth as int),
            wanted == map_lines(root@, all, depth as int),
            res@.len() == k,
            forall|m: int| 0 <= m < k ==> (#[trigger] res@[m])@ == wanted[m],
        decreases places@.len() - k,
    {
        let mut line = place_path(&places[k].key);
        line.push('\t');
        line.append(to_decimal(places[k].count as u64).as_str());
        assert(place_views(places@)[k as int] == places@[k as int]@);
        res.push(line);
        k = k + 1;
    }
    assert(place_views(places@).len() == places@.len());
    assert(texts(res@) =~= wanted);
    res
}

/// One path stands before another if they are the same up to a component where
/// either the first ends and the second does not, or the component of the first
/// stands before that of the second. Names stand in the order of texts, and behind
/// `/`, `.` and `..`, which stand in that order.
pub proof fn law_path_order(a: Seq<Seq<char>>, b: Seq<Seq<char>>)
    ensures
        path_before(a, b) <==> exists|k: int|
            0 <= k <= a.len() && k < b.len() && #[trigger] a.take(k) == b.take(k) && (k == a.len()
                || a[k] != b[k] && component_before(a[k], b[k])),
    decreases a.len(),
{
    if b.len() > 0 {
        if a.len() == 0 {
            assert(a.take(0) =~= b.take(0));
        } else {
            let (x, y) = (a.skip(1), b.skip(1));
            law_path_order(x, y);
            if path_before(a, b) {
                if a[0] == b[0] {
                    let k = choose|k: int|
                        0 <= k <= x.len() && k < y.len() && #[trigger] x.take(k) == y.take(k) && (k
                            == x.len() || x[k] != y[k] && component_before(x[k], y[k]));
                    assert(a.take(k + 1) =~= b.take(k + 1)) by {
                        assert forall|i: int| 0 <= i < k + 1 implies a[i] == b[i] by {
                            if i > 0 {
                                assert(x.take(k)[i - 1] == y.take(k)[i - 1]);
                            }
                        }
                    }
                    if k < x.len() {
                        assert(x[k] == a[k + 1] && y[k] == b[k + 1]);
                    }
                } else {
                    assert(a.take(0) =~= b.take(0));
                }
            }
            if exists|k: int|
                0 <= k <= a.len() && k < b.len() && #[trigger] a.take(k) == b.take(k) && (k
                    == a.len() || a[k] != b[k] && component_before(a[k], b[k])) {
                let k = choose|k: int|
                    0 <= k <= a.len() && k < b.len() && #[trigger] a.take(k) == b.take(k) && (k
                        == a.len() || a[k] != b[k] && component_before(a[k], b[k]));
                if k > 0 {
                    assert(a.take(k)[0] == b.take(k)[0]);
                    assert(x.take(k - 1) =~= y.take(k - 1)) by {
                        assert forall|i: int| 0 <= i < k - 1 implies x[i] == y[i] by {
                            assert(a.take(k)[i + 1] == b.take(k)[i + 1]);
                        }
                    }
                    if k < a.len() {
                        assert(x[k - 1] == a[k] && y[k - 1] == b[k]);
                    }
                }
            }
        }
    }
}

/// Names stand in the order of texts, and behind `/`, `.` and `..`.
pub proof fn law_component_order(a: Seq<char>, b: Seq<char>)
    requires
        b != seq!['/'],
        b != seq!['.'],
        b != seq!['.', '.'],
    ensures
        a != seq!['/'] && a != seq!['.'] && a != seq!['.', '.'] ==> component_before(a, b)
            == text_before(a, b),
        component_before(seq!['/'], b),
        component_before(seq!['.'], b),
        component_before(seq!['.', '.'], b),
        component_before(seq!['/'], seq!['.']),
        component_before(seq!['.'], seq!['.', '.']),
        !component_before(b, seq!['.', '.']),
{
    let (root, here, up): (Seq<char>, Seq<char>, Seq<char>) = (
        seq!['/'],
        seq!['.'],
        seq!['.', '.'],
    );
    assert(root[0] == '/' && here[0] == '.' && up.len() == 2 && here.len() == 1);
    assert(root != here && here != up && root != up);
}

proof fn lemma_below_counts(
    root: Seq<char>,
    files: Seq<Seq<char>>,
    key: Seq<Seq<char>>,
    depth: int,
    j: int,
)
    requires
        0 <= j < files.len(),
        lies_below(components(shown_path(root, files[j])), key, depth),
    ensures
        files_below(root, files, key, depth) > 0,
    decreases files.len(),
{
    if j < files.len() - 1 {
        assert(files.drop_last()[j] == files[j]);
        lemma_below_counts(root, files.drop_last(), key, depth, j);
    } else {
        lemma_below_is_count(root, files.drop_last(), key, depth);
    }
}

proof fn lemma_below_is_count(
    root: Seq<char>,
    files: Seq<Seq<char>>,
    key: Seq<Seq<char>>,
    depth: int,
)
    ensures
        0 <= files_below(root, files, key, depth) <= files.len(),
        files_below(root, files, key, depth) > 0 ==> exists|j: int|
            0 <= j < files.len() && lies_below(
                components(shown_path(root, #[trigger] files[j])),
                key,
                depth,
            ),
    decreases files.len(),
{
    if files.len() > 0 {
        let front = files.drop_last();
        lemma_below_is_count(root, front, key, depth);
        if lies_below(components(shown_path(root, files.last())), key, depth) {
            assert(lies_below(
                components(shown_path(root, files[files.len() - 1])),
                key,
                depth,
            ));
        } else if files_below(root, front, key, depth) > 0 {
            let j = choose|j: int|
                0 <= j < front.len() && lies_below(
                    components(shown_path(root, #[trigger] front[j])),
                    key,
                    depth,
                );
            assert(files[j] == front[j]);
        }
    }
}

/// A map has a row for each file and each directory that files lie in, down to the
/// given depth, and for nothing else.
pub proof fn law_map_shows_every_directory(
    root: Seq<char>,
    files: Seq<Seq<char>>,
    depth: int,
    key: Seq<Seq<char>>,
)
    ensures
        (exists|i: int|
            0 <= i < places_of(root, files, depth).len() && (#[trigger] places_of(
                root,
                files,
                depth,
            )[i]).key == key) <==> 0 < key.len() <= depth && exists|j: int|
            0 <= j < files.len() && key.len() <= components(
                shown_path(root, #[trigger] files[j]),
            ).len() && components(shown_path(root, files[j])).take(key.len() as int) == key,
{
    law_map_rows(root, files, depth);
    let places = places_of(root, files, depth);
    if exists|i: int| 0 <= i < places.len() && (#[trigger] places[i]).key == key {
        let i = choose|i: int| 0 <= i < places.len() && (#[trigger] places[i]).key == key;
        assert(places[i].count > 0);
        lemma_below_is_count(root, files, key, depth);
        let j = choose|j: int|
            0 <= j < files.len() && lies_below(
                components(shown_path(root, #[trigger] files[j])),
                key,
                depth,
            );
        assert(key.len() <= components(shown_path(root, files[j])).len());
    }
    if 0 < key.len() <= depth && exists|j: int|
        0 <= j < files.len() && key.len() <= components(
            shown_path(root, #[trigger] files[j]),
        ).len() && components(shown_path(root, files[j])).take(key.len() as int) == key {
        let j = choose|j: int|
            0 <= j < files.len() && key.len() <= components(
                shown_path(root, #[trigger] files[j]),
            ).len() && components(shown_path(root, files[j])).take(key.len() as int) == key;
        lemma_below_counts(root, files, key, depth, j);
        assert(files_below(root, files, key, depth) > 0);
    }
}

/// A row of a map is the path, a tab, and how many files lie there. The path has a
/// slash between its components.
pub proof fn law_map_lines(
    root: Seq<char>,
    files: Seq<Seq<char>>,
    depth: int,
    i: int,
    key: Seq<Seq<char>>,
    name: Seq<char>,
)
    requires
        0 <= i < places_of(root, files, depth).len(),
        name.len() > 0,
        name[0] != '/',
    ensures
        map_lines(root, files, depth).len() == places_of(root, files, depth).len(),
        map_lines(root, files, depth)[i] == path_text(places_of(root, files, depth)[i].key) + seq![
            '\t',
        ] + decimal(
            files_below(root, files, places_of(root, files, depth)[i].key, depth) as nat,
        ),
        path_text(seq![name]) == name,
        path_text(key).len() > 0 && path_text(key).last() != '/' ==> path_text(key.push(name))
            == path_text(key) + seq!['/'] + name,
{
    law_map_rows(root, files, depth);
    let p = places_of(root, files, depth)[i];
    assert(p.count == files_below(root, files, p.key, depth));
    assert(path_text(p.key).push('\t') + decimal(p.count as nat) =~= path_text(p.key) + seq!['\t']
        + decimal(p.count as nat));
    assert(key.push(name).drop_last() =~= key);
    assert(path_text(key).push('/') + name =~= path_text(key) + seq!['/'] + name);
    let one = seq![name];
    assert(one.drop_last() =~= seq![]);
    reveal_with_fuel(path_text, 2);
    assert(Seq::<char>::empty() + name =~= name);
}

/// A file is counted at each directory above it and at itself, down to the depth, and
/// nowhere else.
pub proof fn law_files_are_counted(
    root: Seq<char>,
    files: Seq<Seq<char>>,
    file: Seq<char>,
    key: Seq<Seq<char>>,
    depth: int,
)
    ensures
        files_below(root, seq![], key, depth) == 0,
        files_below(root, files.push(file), key, depth) == files_below(root, files, key, depth) + (
        if 0 < key.len() <= depth && key.len() <= components(shown_path(root, file)).len()
            && components(shown_path(root, file)).take(key.len() as int) == key {
            1int
        } else {
            0
        }),
{
    assert(files.push(file).drop_last() =~= files);
}

} // verus!
