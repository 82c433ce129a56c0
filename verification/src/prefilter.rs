//! The prefilter of a search: which files need not be read.

use vstd::prelude::*;

use crate::bigram::FileMeta;
use crate::bigram::GrepBigram;
use crate::bigram::ScannedFile;
use crate::bigram::fingerprint_of;
use crate::bigram::law_no_false_negatives;
use crate::bigram::law_ordinals;
use crate::bigram::looks_binary;
use crate::bigram::ordinals;
use crate::bytes::folds_at;
use crate::bytes::lemma_scan;
use crate::bytes::past;
use crate::bytes::same_letter;
use crate::matcher::letters_at;
use crate::matcher::literal_matches;
use crate::path_table::PathTable;
use crate::text::occurs_at;
use crate::text::texts;

verus! {

/// An index and what it says about one pattern.
pub struct Prefilter {
    index: GrepBigram,
    numbers: PathTable,
    candidates: Option<PathTable>,
    pattern: Ghost<Seq<u8>>,
}

/// A file need not be read: the index does not name it as one that may hold
/// the pattern, and it has not changed since it was indexed.
pub open spec fn skipped(
    index: GrepBigram,
    pattern: Seq<u8>,
    path: Seq<char>,
    meta: Option<FileMeta>,
) -> bool {
    &&& index.filtered(pattern) matches Some(found)
    &&& !found.contains(path)
    &&& meta matches Some(m)
    &&& index.unchanged(path, ordinals(texts(index.paths@)), fingerprint_of(m))
}

impl Prefilter {
    /// The index.
    pub closed spec fn spec_index(self) -> GrepBigram {
        self.index
    }

    /// The pattern.
    pub closed spec fn spec_pattern(self) -> Seq<u8> {
        self.pattern@
    }

    /// The tables say of each path what the index says.
    #[verifier::type_invariant]
    spec fn consistent(self) -> bool {
        &&& self.numbers.wf()
        &&& self.numbers@ == ordinals(texts(self.index.paths@))
        &&& match self.candidates {
            Some(table) => {
                &&& table.wf()
                &&& self.index.filtered(self.pattern@) matches Some(found)
                &&& forall|p: Seq<char>| #[trigger]
                    table@.contains_key(p) <==> found.contains(p)
            },
            None => self.index.filtered(self.pattern@) is None,
        }
    }

    /// Asks the index about `pattern`.
    pub fn new(index: GrepBigram, pattern: &[u8]) -> (res: Prefilter)
        ensures
            res.spec_index() == index,
            res.spec_pattern() == pattern@,
    {
        let numbers = index.ordinal_map();
        let candidates = match index.filter(pattern) {
            None => None,
            Some(found) => {
                let ghost names = found@.map_values(|p: &String| p@);
                let mut table = PathTable::new();
                let mut i: usize = 0;
                while i < found.len()
                    invariant
                        i <= found@.len(),
                        table.wf(),
                        names == found@.map_values(|p: &String| p@),
                        forall|p: Seq<char>| #[trigger]
                            table@.contains_key(p) <==> names.take(i as int).contains(p),
                    decreases found@.len() - i,
                {
                    let ghost before = table@;
                    table.insert(found[i].as_str(), i);
                    assert forall|p: Seq<char>| #[trigger]
                        table@.contains_key(p) <==> names.take(i + 1).contains(p) by {
                        let (old_list, list) = (names.take(i as int), names.take(i + 1));
                        assert(list[i as int] == found@[i as int]@);
                        if old_list.contains(p) {
                            let k = old_list.index_of(p);
                            assert(list[k] == p);
                        }
                        if list.contains(p) {
                            let k = list.index_of(p);
                            if k < i {
                                assert(old_list[k] == p);
                            }
                        }
                        assert(before.contains_key(p) <==> old_list.contains(p));
                    }
                    i = i + 1;
                }
                assert(names.take(i as int) =~= names);
                Some(table)
            },
        };
        Prefilter { index, numbers, candidates, pattern: Ghost(pattern@) }
    }

    /// Whether files can be skipped at all, and so their metadata is needed.
    pub fn is_active(&self) -> (res: bool)
        ensures
            res == (self.spec_index().filtered(self.spec_pattern()) is Some),
    {
        proof {
            use_type_invariant(self);
        }
        self.candidates.is_some()
    }

    /// Whether a file need not be read.
    pub fn skips(&self, path: &str, meta: &Option<FileMeta>) -> (res: bool)
        ensures
            res == skipped(self.spec_index(), self.spec_pattern(), path@, *meta),
    {
        proof {
            use_type_invariant(self);
        }
        match &self.candidates {
            None => false,
            Some(table) => {
                let current = self.index.is_current_at(path, &self.numbers, meta);
                let named = table.get(path).is_some();
                !named && current
            },
        }
    }
}

/// A literal that stands nowhere, whatever the case of its letters, has no
/// match.
proof fn lemma_no_match(content: Seq<u8>, pattern: Seq<u8>, case_insensitive: bool)
    requires
        forall|at: int| !folds_at(content, pattern, at),
    ensures
        literal_matches(pattern, case_insensitive, content).len() == 0,
{
    let to = content.len() as int + 1;
    let hit = if case_insensitive {
        |p: int| letters_at(content, pattern, p)
    } else {
        |p: int| occurs_at(content, pattern, p)
    };
    lemma_scan(|p: int| letters_at(content, pattern, p), 1, 0, to);
    lemma_scan(|p: int| occurs_at(content, pattern, p), past(pattern), 0, to);
    assert forall|q: int| 0 <= q < to implies !#[trigger] hit(q) by {
        assert(!folds_at(content, pattern, q));
        if occurs_at(content, pattern, q) {
            assert forall|i: int| 0 <= i < pattern.len() implies same_letter(
                #[trigger] content[q + i],
                pattern[i],
            ) by {
                assert(content.subrange(q, q + pattern.len())[i] == pattern[i]);
            }
            assert(folds_at(content, pattern, q));
        }
    }
}

/// The prefilter has no false negatives: a file that it skips does not hold the
/// pattern, whatever the case of its letters, or is binary. `content` is what the
/// file holds and `meta` its metadata; that a file whose fingerprint is the
/// recorded one still has the content that was indexed is what a fingerprint
/// stands for.
pub proof fn law_skipped_files_hold_no_match(
    index: GrepBigram,
    files: Seq<ScannedFile>,
    pattern: Seq<u8>,
    path: Seq<char>,
    meta: FileMeta,
    content: Seq<u8>,
)
    requires
        index.indexes(files),
        forall|i: int|
            0 <= i < files.len() && (#[trigger] files[i]).path@ == path && files[i].fingerprint()
                == fingerprint_of(meta) ==> files[i].tells_of(content),
        skipped(index, pattern, path, Some(meta)),
    ensures
        looks_binary(content) || {
            &&& forall|at: int| !folds_at(content, pattern, at)
            &&& literal_matches(pattern, false, content).len() == 0
            &&& literal_matches(pattern, true, content).len() == 0
        },
{
    let list = texts(index.paths@);
    assert(index.paths.len() == list.len());
    law_ordinals(list, path);
    let i = ordinals(list)[path] as int;
    assert(list[i] == path);
    assert(index.paths@[i]@ == files[i].path@);
    assert(index.fingerprints@[i] == files[i].fingerprint());
    if files[i].scan !is Binary {
        assert forall|at: int| !folds_at(content, pattern, at) by {
            if folds_at(content, pattern, at) {
                law_no_false_negatives(index, files, i, content, pattern, at);
            }
        }
        lemma_no_match(content, pattern, false);
        lemma_no_match(content, pattern, true);
    }
}

} // verus!
