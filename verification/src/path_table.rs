//! A table from paths to numbers, found by hash.

use std::collections::HashMap;

use vstd::prelude::*;
use vstd::std_specs::iter::IteratorSpec;

verus! {

broadcast use vstd::std_specs::hash::group_hash_axioms;

/// The hash of a path (FNV-1a over its characters).
pub open spec fn path_hash(path: Seq<char>) -> u64
    decreases path.len(),
{
    if path.len() == 0 {
        0xcbf2_9ce4_8422_2325
    } else {
        vstd::wrapping::u64_specs::wrapping_mul(
            path_hash(path.drop_last()) ^ (path.last() as u64),
            0x100_0000_01b3,
        )
    }
}

/// A table from paths to numbers. Paths with the same hash share a bucket.
pub struct PathTable {
    buckets: HashMap<u64, Vec<(String, usize)>>,
    entries: Ghost<Map<Seq<char>, usize>>,
}

/// The bucket holds `path` at position `i`.
spec fn holds_at(bucket: Seq<(String, usize)>, path: Seq<char>, i: int) -> bool {
    0 <= i < bucket.len() && bucket[i].0@ == path
}

fn hash_of(path: &str) -> (res: u64)
    ensures
        res == path_hash(path@),
{
    let mut h: u64 = 0xcbf2_9ce4_8422_2325;
    let mut it = path.chars();
    let ghost mut done: Seq<char> = Seq::empty();
    loop
        invariant
            done + it.remaining() == path@,
            h == path_hash(done),
            it.decrease() is Some,
            it.obeys_prophetic_iter_laws(),
        decreases it.decrease()->0,
    {
        match it.next() {
            Some(c) => {
                h = (h ^ (c as u64)).wrapping_mul(0x100_0000_01b3);
                proof {
                    assert(done.push(c).drop_last() =~= done);
                    done = done.push(c);
                }
            },
            None => {
                assert(done =~= path@);
                return h;
            },
        }
    }
}

impl View for PathTable {
    type V = Map<Seq<char>, usize>;

    closed spec fn view(&self) -> Map<Seq<char>, usize> {
        self.entries@
    }
}

impl PathTable {
    /// Each path stands once, in the bucket of its hash, with its number.
    pub closed spec fn wf(self) -> bool {
        &&& forall|h: u64, i: int|
            #![trigger self.buckets@[h]@[i]]
            self.buckets@.contains_key(h) && 0 <= i < self.buckets@[h]@.len() ==> {
                let e = self.buckets@[h]@[i];
                &&& path_hash(e.0@) == h
                &&& self.entries@.contains_key(e.0@)
                &&& self.entries@[e.0@] == e.1
            }
        &&& forall|h: u64, i: int, j: int|
            #![trigger self.buckets@[h]@[i], self.buckets@[h]@[j]]
            self.buckets@.contains_key(h) && 0 <= i < j < self.buckets@[h]@.len()
                ==> self.buckets@[h]@[i].0@ != self.buckets@[h]@[j].0@
        &&& forall|p: Seq<char>| #[trigger]
            self.entries@.contains_key(p) ==> {
                &&& self.buckets@.contains_key(path_hash(p))
                &&& exists|i: int| holds_at(self.buckets@[path_hash(p)]@, p, i)
            }
    }

    /// An empty table.
    pub fn new() -> (res: PathTable)
        ensures
            res.wf(),
            res@ == Map::<Seq<char>, usize>::empty(),
    {
        PathTable { buckets: HashMap::new(), entries: Ghost(Map::empty()) }
    }

    /// The number of `path`, if the table has it.
    pub fn get(&self, path: &str) -> (res: Option<usize>)
        requires
            self.wf(),
        ensures
            match res {
                Some(n) => self@.contains_key(path@) && self@[path@] == n,
                None => !self@.contains_key(path@),
            },
    {
        let h = hash_of(path);
        match self.buckets.get(&h) {
            None => None,
            Some(bucket) => {
                let mut i: usize = 0;
                while i < bucket.len()
                    invariant
                        self.wf(),
                        h == path_hash(path@),
                        self.buckets@.contains_key(h),
                        self.buckets@[h] == bucket,
                        i <= bucket@.len(),
                        forall|j: int| 0 <= j < i ==> !holds_at(bucket@, path@, j),
                    decreases bucket@.len() - i,
                {
                    if *bucket[i].0.as_str() == *path {
                        assert(self.buckets@[h]@[i as int].0@ == path@);
                        return Some(bucket[i].1);
                    }
                    i = i + 1;
                }
                None
            },
        }
    }

    /// Gives `path` the number `n`, in place of the one that it has.
    pub fn insert(&mut self, path: &str, n: usize)
        requires
            old(self).wf(),
        ensures
            final(self).wf(),
            final(self)@ == old(self)@.insert(path@, n),
    {
        let h = hash_of(path);
        let mut bucket: Vec<(String, usize)> = match self.buckets.remove(&h) {
            Some(b) => b,
            None => Vec::new(),
        };
        let ghost before = bucket@;
        let ghost p = path@;
        let mut i: usize = 0;
        while i < bucket.len() && *bucket[i].0.as_str() != *path
            invariant
                i <= bucket@.len(),
                bucket@ == before,
                p == path@,
                forall|j: int| 0 <= j < i ==> !holds_at(before, p, j),
            decreases bucket@.len() - i,
        {
            i = i + 1;
        }
        let entry = (path.to_owned(), n);
        if i < bucket.len() {
            bucket.set(i, entry);
        } else {
            bucket.push(entry);
        }
        assert(bucket@[i as int].0@ == p && bucket@[i as int].1 == n);
        self.buckets.insert(h, bucket);
        self.entries = Ghost(self.entries@.insert(p, n));
        proof {
            assert forall|g: u64, k: int|
                #![trigger self.buckets@[g]@[k]]
                self.buckets@.contains_key(g) && 0 <= k < self.buckets@[g]@.len() implies {
                let e = self.buckets@[g]@[k];
                &&& path_hash(e.0@) == g
                &&& self.entries@.contains_key(e.0@)
                &&& self.entries@[e.0@] == e.1
            } by {
                let e = self.buckets@[g]@[k];
                if g == h {
                    if k != i {
                        assert(before[k] == e);
                        assert(old(self).buckets@[h]@[k] == e);
                        if e.0@ == p {
                            if i < before.len() {
                                assert(old(self).buckets@[h]@[i as int].0@ == p);
                            }
                            assert(holds_at(before, p, k));
                        }
                    }
                } else {
                    assert(old(self).buckets@[g]@[k] == e);
                }
            }
            assert forall|g: u64, a: int, b: int|
                #![trigger self.buckets@[g]@[a], self.buckets@[g]@[b]]
                self.buckets@.contains_key(g) && 0 <= a < b
                    < self.buckets@[g]@.len() implies self.buckets@[g]@[a].0@
                != self.buckets@[g]@[b].0@ by {
                if g == h {
                    assert(a < before.len() ==> old(self).buckets@[h]@[a] == before[a]);
                    assert(b < before.len() ==> old(self).buckets@[h]@[b] == before[b]);
                    if b == i {
                        assert(!holds_at(before, p, a));
                    }
                } else {
                    assert(old(self).buckets@[g]@[a] == self.buckets@[g]@[a]);
                    assert(old(self).buckets@[g]@[b] == self.buckets@[g]@[b]);
                }
            }
            assert forall|q: Seq<char>| #[trigger] self.entries@.contains_key(q) implies {
                &&& self.buckets@.contains_key(path_hash(q))
                &&& exists|k: int| holds_at(self.buckets@[path_hash(q)]@, q, k)
            } by {
                if q == p {
                    assert(holds_at(self.buckets@[h]@, p, i as int));
                } else {
                    assert(old(self).entries@.contains_key(q));
                    let k = choose|k: int| holds_at(old(self).buckets@[path_hash(q)]@, q, k);
                    assert(holds_at(old(self).buckets@[path_hash(q)]@, q, k));
                    assert(holds_at(self.buckets@[path_hash(q)]@, q, k));
                }
            }
        }
    }
}

} // verus!
