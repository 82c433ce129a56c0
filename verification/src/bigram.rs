//! The bigram prefilter: for each pair of neighbouring printable characters,
//! the set of files that hold it. A search asks for the files that hold every
//! pair of its pattern, or whose content is not known, and needs to read no
//! others that have not changed.

use std::collections::HashMap;
use std::collections::HashSet;

use vstd::prelude::*;
use vstd::std_specs::iter::IteratorSpec;

use crate::bytes::ascii_lower;
use crate::bytes::folds_at;
use crate::bytes::lower;
use crate::bytes::same_letter;
use crate::path_table::PathTable;
use crate::text::texts;

verus! {

broadcast use vstd::std_specs::hash::group_hash_axioms;

/// The largest file that is read for its bigrams.
pub const MAX_FILE_BYTES: u64 = 4194304;

/// How many bytes are looked at to tell a binary file.
pub const PROBE_BYTES: usize = 8192;

/// When a file was last modified, in seconds, and how long it is. A file whose
/// fingerprint is still the same has not changed.
pub type FileFingerprint = (i64, u64);

/// What the file system says of a file.
#[derive(Debug, Clone, Copy)]
pub struct FileMeta {
    /// Whether it is a regular file.
    pub is_file: bool,
    /// The seconds from the epoch to its last modification, if they are known
    /// and not negative.
    pub modified: Option<u64>,
    /// Its length.
    pub len: u64,
}

/// The fingerprint that a file's metadata gives.
pub open spec fn fingerprint_of(meta: FileMeta) -> FileFingerprint {
    (
        match meta.modified {
            Some(secs) => secs as i64,
            None => 0,
        },
        meta.len,
    )
}

/// The fingerprint that a file's metadata gives; zero stands for a time that is
/// not known.
pub fn fingerprint_from_metadata(meta: &FileMeta) -> (res: FileFingerprint)
    ensures
        res == fingerprint_of(*meta),
{
    let secs = match meta.modified {
        Some(secs) => secs as i64,
        None => 0,
    };
    (secs, meta.len)
}

/// A printable ASCII character.
pub open spec fn printable(b: u8) -> bool {
    32 <= b <= 126
}

/// The number of a pair of characters, case left aside.
pub open spec fn bigram_key(a: u8, b: u8) -> u16 {
    ((ascii_lower(a) as u16) << 8) | (ascii_lower(b) as u16)
}

/// The characters at `i` and behind it are a pair that counts.
pub open spec fn is_pair(s: Seq<u8>, i: int) -> bool {
    0 <= i && i + 1 < s.len() && printable(s[i]) && printable(s[i + 1])
}

/// The number of the pair at `i`.
pub open spec fn key_at(s: Seq<u8>, i: int) -> u16 {
    bigram_key(s[i], s[i + 1])
}

/// `s` holds a pair with the number `key`.
pub open spec fn has_bigram(s: Seq<u8>, key: u16) -> bool {
    exists|i: int| #[trigger] is_pair(s, i) && key_at(s, i) == key
}

/// A zero byte among the first ones marks a binary file.
pub open spec fn looks_binary(s: Seq<u8>) -> bool {
    exists|i: int| 0 <= i < s.len() && i < PROBE_BYTES && #[trigger] s[i] == 0
}

/// Whether the content looks binary.
pub fn is_binary(content: &[u8]) -> (res: bool)
    ensures
        res == looks_binary(content@),
{
    let mut i: usize = 0;
    while i < content.len() && i < PROBE_BYTES
        invariant
            i <= content@.len(),
            i <= PROBE_BYTES,
            forall|j: int| 0 <= j < i ==> content@[j] != 0,
        decreases content@.len() - i,
    {
        if content[i] == 0 {
            return true;
        }
        i = i + 1;
    }
    false
}

/// The number of a pair of characters.
fn key_of(a: u8, b: u8) -> (res: u16)
    ensures
        res == bigram_key(a, b),
{
    ((lower(a) as u16) << 8) | (lower(b) as u16)
}

/// The numbers of the pairs that `content` holds.
pub fn extract_bigrams(content: &[u8]) -> (res: HashSet<u16>)
    ensures
        forall|key: u16| #[trigger] res@.contains(key) == has_bigram(content@, key),
{
    let mut set: HashSet<u16> = HashSet::new();
    let mut i: usize = 0;
    while i < content.len() && content.len() - i >= 2
        invariant
            i <= content@.len(),
            forall|key: u16| #[trigger]
                set@.contains(key) == exists|j: int|
                    j < i && #[trigger] is_pair(content@, j) && key_at(content@, j) == key,
        decreases content@.len() - i,
    {
        let a = content[i];
        let b = content[i + 1];
        let ghost before = set@;
        if 32 <= a && a <= 126 && 32 <= b && b <= 126 {
            let key = key_of(a, b);
            set.insert(key);
            assert(is_pair(content@, i as int) && key_at(content@, i as int) == key);
        } else {
            assert(!is_pair(content@, i as int));
        }
        assert forall|key: u16| #[trigger] set@.contains(key) == exists|j: int|
            j < i + 1 && #[trigger] is_pair(content@, j) && key_at(content@, j) == key by {
            if before.contains(key) {
                let j = choose|j: int|
                    j < i && #[trigger] is_pair(content@, j) && key_at(content@, j) == key;
                assert(is_pair(content@, j));
            }
        }
        i = i + 1;
    }
    assert forall|key: u16| #[trigger] set@.contains(key) == has_bigram(content@, key) by {
        if has_bigram(content@, key) {
            let j = choose|j: int| #[trigger] is_pair(content@, j) && key_at(content@, j) == key;
            assert(j < i && is_pair(content@, j));
        }
    }
    set
}

/// The file is one whose content the index knows.
pub open spec fn indexable(
    meta: Option<FileMeta>,
    content: Option<Seq<u8>>,
    after: Option<FileFingerprint>,
) -> bool {
    &&& meta matches Some(m)
    &&& m.is_file
    &&& 0 < m.len <= MAX_FILE_BYTES
    &&& content matches Some(c)
    &&& !looks_binary(c)
    &&& after is Some
}

/// The pairs of a file and its fingerprint. `meta` is what the file system
/// said before the file was read, `content` what was read, and `after` the
/// fingerprint taken afterwards. A file that is none, is empty, too long or
/// binary, or that could not be read or asked about, gives nothing.
pub fn extract_file_bigrams(
    meta: &Option<FileMeta>,
    content: &Option<Vec<u8>>,
    after: Option<FileFingerprint>,
) -> (res: Option<(HashSet<u16>, FileFingerprint)>)
    ensures
        match res {
            Some(found) => {
                &&& content matches Some(c)
                &&& indexable(*meta, Some(c@), after)
                &&& forall|key: u16| #[trigger] found.0@.contains(key) == has_bigram(c@, key)
                &&& after == Some(found.1)
            },
            None => !indexable(
                *meta,
                match content {
                    Some(c) => Some(c@),
                    None => None,
                },
                after,
            ),
        },
{
    let m = match meta {
        Some(m) => m,
        None => return None,
    };
    if !m.is_file {
        return None;
    }
    if m.len == 0 || m.len > MAX_FILE_BYTES {
        return None;
    }
    let c = match content {
        Some(c) => c,
        None => return None,
    };
    if is_binary(c.as_slice()) {
        return None;
    }
    let set = extract_bigrams(c.as_slice());
    match after {
        Some(fp) => Some((set, fp)),
        None => None,
    }
}

/// The file was empty, and so its content is known.
pub open spec fn known_empty(
    meta: Option<FileMeta>,
    content: Option<Seq<u8>>,
    after: Option<FileFingerprint>,
) -> bool {
    &&& meta matches Some(m)
    &&& m.is_file
    &&& m.len == 0
    &&& content matches Some(c)
    &&& c.len() == 0
    &&& after is Some
}

/// The file was read and looks binary.
pub open spec fn known_binary(
    meta: Option<FileMeta>,
    content: Option<Seq<u8>>,
    after: Option<FileFingerprint>,
) -> bool {
    &&& meta matches Some(m)
    &&& m.is_file
    &&& 0 < m.len <= MAX_FILE_BYTES
    &&& content matches Some(c)
    &&& looks_binary(c)
    &&& after is Some
}

/// What is known of the content of a file, and its fingerprint.
#[derive(Debug)]
pub enum Scan {
    /// It is text with these pairs.
    Known { pairs: HashSet<u16>, fingerprint: FileFingerprint },
    /// It is binary.
    Binary { fingerprint: FileFingerprint },
    /// It was not read: the file is no regular one, is too long, or could not be
    /// read or asked about.
    Unknown { fingerprint: FileFingerprint },
}

/// Bytes that may be missing.
pub open spec fn bytes_of(content: Option<Vec<u8>>) -> Option<Seq<u8>> {
    match content {
        Some(c) => Some(c@),
        None => None,
    }
}

/// Whether a file is to be read for its pairs: one that is too long is not.
pub fn wants_content(meta: &FileMeta) -> (res: bool)
    ensures
        res == (meta.is_file && meta.len <= MAX_FILE_BYTES),
{
    meta.is_file && meta.len <= MAX_FILE_BYTES
}

/// What is known of a file: `meta` is what the file system said before the file
/// was read, `content` what was read, and `after` the fingerprint taken
/// afterwards.
pub fn scan_file(
    meta: &Option<FileMeta>,
    content: &Option<Vec<u8>>,
    after: Option<FileFingerprint>,
) -> (res: Scan)
    ensures
        match res {
            Scan::Known { pairs, fingerprint } => {
                &&& indexable(*meta, bytes_of(*content), after) || known_empty(
                    *meta,
                    bytes_of(*content),
                    after,
                )
                &&& forall|key: u16| #[trigger]
                    pairs@.contains(key) == has_bigram(bytes_of(*content)->0, key)
                &&& after == Some(fingerprint)
            },
            Scan::Binary { fingerprint } => {
                &&& known_binary(*meta, bytes_of(*content), after)
                &&& after == Some(fingerprint)
            },
            Scan::Unknown { fingerprint } => {
                &&& !indexable(*meta, bytes_of(*content), after)
                &&& !known_empty(*meta, bytes_of(*content), after)
                &&& !known_binary(*meta, bytes_of(*content), after)
                &&& fingerprint == (match after {
                    Some(fp) => fp,
                    None => (0, 0),
                })
            },
        },
{
    match extract_file_bigrams(meta, content, after) {
        Some((pairs, fingerprint)) => {
            return Scan::Known { pairs, fingerprint };
        },
        None => {},
    }
    let fingerprint = match after {
        Some(fp) => fp,
        None => {
            return Scan::Unknown { fingerprint: (0, 0) };
        },
    };
    match (meta, content) {
        (Some(m), Some(c)) => {
            if m.is_file && m.len == 0 && c.len() == 0 {
                return Scan::Known { pairs: extract_bigrams(c.as_slice()), fingerprint };
            }
            if m.is_file && m.len > 0 && m.len <= MAX_FILE_BYTES && is_binary(c.as_slice()) {
                return Scan::Binary { fingerprint };
            }
        },
        _ => {},
    }
    Scan::Unknown { fingerprint }
}

/// What is known of a file that is to be indexed.
#[derive(Debug)]
pub struct ScannedFile {
    /// Its path.
    pub path: String,
    /// What is known of its content.
    pub scan: Scan,
}

impl ScannedFile {
    /// The file is known to hold the pair with the number `key`.
    pub open spec fn holds(self, key: u16) -> bool {
        self.scan matches Scan::Known { pairs, .. } && pairs@.contains(key)
    }

    /// The fingerprint that the index records for the file.
    pub open spec fn fingerprint(self) -> FileFingerprint {
        match self.scan {
            Scan::Known { fingerprint, .. } => fingerprint,
            Scan::Binary { fingerprint } => fingerprint,
            Scan::Unknown { fingerprint } => fingerprint,
        }
    }

    /// What was found in the file is true of `content`.
    pub open spec fn tells_of(self, content: Seq<u8>) -> bool {
        match self.scan {
            Scan::Known { pairs, .. } => forall|key: u16| #[trigger]
                pairs@.contains(key) == has_bigram(content, key),
            Scan::Binary { .. } => looks_binary(content),
            Scan::Unknown { .. } => true,
        }
    }
}

/// For each pair of characters, the files that hold it: bit `i` of a pair's
/// words stands for `paths[i]`.
#[derive(Debug)]
pub struct GrepBigram {
    /// The indexed files.
    pub paths: Vec<String>,
    /// For each pair that occurs, 64 files to a word.
    pub posting: HashMap<u16, Vec<u64>>,
    /// The fingerprint of each file when it was indexed.
    pub fingerprints: Vec<FileFingerprint>,
    /// Whether the content of each file is unknown, so that it may hold anything.
    pub unknown: Vec<bool>,
}

/// Bit `i` of a row of words.
pub open spec fn bit(words: Seq<u64>, i: int) -> bool {
    words[i / 64] & (1u64 << ((i % 64) as u64)) != 0
}

/// How many words hold `n` bits, one at least.
pub open spec fn words_for(n: int) -> int {
    if n == 0 {
        1
    } else {
        (n + 63) / 64
    }
}

proof fn lemma_set_bit(w: u64, b: u64, c: u64)
    by (bit_vector)
    requires
        b < 64,
        c < 64,
    ensures
        (w | (1u64 << b)) & (1u64 << c) != 0 <==> (b == c || w & (1u64 << c) != 0),
        0u64 & (1u64 << c) == 0,
        0xffff_ffff_ffff_ffffu64 & (1u64 << c) != 0,
{
}

proof fn lemma_and_bit(w: u64, x: u64, c: u64)
    by (bit_vector)
    requires
        c < 64,
    ensures
        (w & x) & (1u64 << c) != 0 <==> (w & (1u64 << c) != 0 && x & (1u64 << c) != 0),
{
}

/// A set of all the members of a list is the set that the list stands for.
proof fn lemma_all_seen(list: Seq<u16>, seen: Set<u16>, all: Set<u16>)
    requires
        list.to_set() == all,
        forall|k: u16| #[trigger]
            seen.contains(k) == exists|j: int| 0 <= j < list.len() && #[trigger] list[j] == k,
    ensures
        seen == all,
{
    assert forall|k: u16| seen.contains(k) == all.contains(k) by {
        if seen.contains(k) {
            let j = choose|j: int| 0 <= j < list.len() && #[trigger] list[j] == k;
            assert(list.contains(list[j]));
        }
        if all.contains(k) {
            assert(list.contains(k));
        }
    }
    assert(seen =~= all);
}

/// The postings of the first `idx` files, and of the next one as far as the
/// keys in `seen` go.
pub open spec fn holds_so_far(
    posting: Map<u16, Vec<u64>>,
    files: Seq<ScannedFile>,
    idx: int,
    seen: Set<u16>,
    words: int,
) -> bool {
    &&& forall|key: u16| #[trigger]
        posting.contains_key(key) <==> seen.contains(key) || exists|i: int|
            0 <= i < idx && (#[trigger] files[i]).holds(key)
    &&& forall|key: u16| #[trigger]
        posting.contains_key(key) ==> posting[key]@.len() == words
    &&& forall|key: u16, i: int|
        #![trigger bit(posting[key]@, i)]
        posting.contains_key(key) && 0 <= i < words * 64 ==> bit(posting[key]@, i) == ((i < idx
            && files[i].holds(key)) || (i == idx && seen.contains(key)))
}

/// What adding the file `idx` to a pair's files does.
spec fn file_added(
    before: Map<u16, Vec<u64>>,
    after: Map<u16, Vec<u64>>,
    key: u16,
    idx: int,
    words: int,
) -> bool {
    &&& forall|k: u16| #[trigger]
        after.contains_key(k) <==> before.contains_key(k) || k == key
    &&& forall|k: u16| k != key && before.contains_key(k) ==> #[trigger] after[k] == before[k]
    &&& after[key]@.len() == words
    &&& forall|i: int|
        #![trigger bit(after[key]@, i)]
        0 <= i < words * 64 ==> bit(after[key]@, i) == (i == idx || (before.contains_key(key)
            && bit(before[key]@, i)))
}

/// Sets bit `idx` of the words of `key`.
fn add_file(posting: &mut HashMap<u16, Vec<u64>>, key: u16, idx: usize, words: usize)
    requires
        idx / 64 < words,
        old(posting)@.contains_key(key) ==> old(posting)@[key]@.len() == words,
    ensures
        file_added(old(posting)@, final(posting)@, key, idx as int, words as int),
{
    let mut bs: Vec<u64> = match posting.remove(&key) {
        Some(bs) => bs,
        None => vec![0u64; words],
    };
    let ghost before = bs@;
    let word = idx / 64;
    let b = (idx % 64) as u64;
    let old_word = bs[word];
    bs.set(word, old_word | (1u64 << b));
    proof {
        assert forall|i: int| 0 <= i < words * 64 implies #[trigger] bit(bs@, i) == (i == idx
            || bit(before, i)) by {
            lemma_set_bit(old_word, b, (i % 64) as u64);
            if i / 64 == word && i % 64 == b {
                assert(i == idx);
            }
        }
        if !old(posting)@.contains_key(key) {
            assert forall|i: int| 0 <= i < words * 64 implies !#[trigger] bit(before, i) by {
                lemma_set_bit(0, b, (i % 64) as u64);
            }
        }
    }
    let ghost words_of_key = bs@;
    posting.insert(key, bs);
    proof {
        assert(posting@[key]@ == words_of_key);
        assert(words_of_key.len() == words);
        assert forall|i: int| 0 <= i < words * 64 implies #[trigger] bit(posting@[key]@, i) == (i == idx
            || (old(posting)@.contains_key(key) && bit(old(posting)@[key]@, i))) by {
            assert(bit(words_of_key, i) == (i == idx || bit(before, i)));
            if !old(posting)@.contains_key(key) {
                assert(!bit(before, i));
            }
        }
    }
}

proof fn lemma_key_added(
    before: Map<u16, Vec<u64>>,
    after: Map<u16, Vec<u64>>,
    files: Seq<ScannedFile>,
    idx: int,
    seen: Set<u16>,
    key: u16,
    words: int,
)
    requires
        holds_so_far(before, files, idx, seen, words),
        file_added(before, after, key, idx, words),
        0 <= idx < files.len(),
        words == words_for(files.len() as int),
    ensures
        holds_so_far(after, files, idx, seen.insert(key), words),
{
    assert forall|k: u16, i: int|
        #![trigger bit(after[k]@, i)]
        after.contains_key(k) && 0 <= i < words * 64 implies bit(after[k]@, i) == ((i < idx
        && files[i].holds(k)) || (i == idx && seen.insert(key).contains(k))) by {
        if k == key {
            assert(0 <= i < words * 64);
            if before.contains_key(k) {
                assert(bit(before[k]@, i) == ((i < idx && files[i].holds(k)) || (i == idx
                    && seen.contains(k))));
            } else {
                assert(!(i < idx && files[i].holds(k)));
            }
        } else {
            assert(after[k] == before[k]);
            assert(bit(before[k]@, i) == ((i < idx && files[i].holds(k)) || (i == idx
                && seen.contains(k))));
        }
    }
    assert forall|k: u16| #[trigger] after.contains_key(k) implies after[k]@.len() == words by {
        if k != key {
            assert(after[k] == before[k]);
        }
    }
}

/// Leaves in `words` the bits that `other` has too, as far as it reaches.
fn intersect(words: &mut Vec<u64>, other: &Vec<u64>)
    ensures
        final(words)@.len() == old(words)@.len(),
        forall|i: int|
            0 <= i < old(words)@.len() * 64 ==> #[trigger] bit(final(words)@, i) == (bit(
                old(words)@,
                i,
            ) && GrepBigram::leaves_in(other@, i)),
{
    let ghost before = words@;
    let mut k: usize = 0;
    while k < words.len() && k < other.len()
        invariant
            k <= words@.len(),
            k <= other@.len(),
            words@.len() == before.len(),
            forall|j: int| 0 <= j < k ==> #[trigger] words@[j] == before[j] & other@[j],
            forall|j: int| k <= j < before.len() ==> #[trigger] words@[j] == before[j],
        decreases words@.len() - k,
    {
        let both = words[k] & other[k];
        words.set(k, both);
        k = k + 1;
    }
    assert forall|i: int| 0 <= i < before.len() * 64 implies #[trigger] bit(words@, i) == (bit(
        before,
        i,
    ) && GrepBigram::leaves_in(other@, i)) by {
        if i / 64 < k {
            lemma_and_bit(before[i / 64], other@[i / 64], (i % 64) as u64);
            assert(words@[i / 64] == before[i / 64] & other@[i / 64]);
        } else {
            assert(words@[i / 64] == before[i / 64]);
        }
    }
}

fn word_count(n: usize) -> (res: usize)
    ensures
        res == words_for(n as int),
        res >= 1,
{
    if n == 0 {
        1
    } else {
        (n - 1) / 64 + 1
    }
}

impl GrepBigram {
    /// The index says of each file what was found in it, and nothing else.
    pub open spec fn indexes(self, files: Seq<ScannedFile>) -> bool {
        &&& self.paths@.len() == files.len()
        &&& self.fingerprints@.len() == files.len()
        &&& forall|i: int|
            0 <= i < files.len() ==> (#[trigger] self.paths@[i])@ == files[i].path@
        &&& forall|i: int|
            0 <= i < files.len() ==> #[trigger] self.fingerprints@[i] == files[i].fingerprint()
        &&& self.unknown@.len() == files.len()
        &&& forall|i: int|
            0 <= i < files.len() ==> #[trigger] self.unknown@[i] == (files[i].scan is Unknown)
        &&& forall|key: u16| #[trigger]
            self.posting@.contains_key(key) <==> exists|i: int|
                0 <= i < files.len() && (#[trigger] files[i]).holds(key)
        &&& forall|key: u16| #[trigger]
            self.posting@.contains_key(key) ==> self.posting@[key]@.len() == words_for(
                files.len() as int,
            )
        &&& forall|key: u16, i: int|
            #![trigger bit(self.posting@[key]@, i)]
            self.posting@.contains_key(key) && 0 <= i < words_for(files.len() as int) * 64 ==> bit(
                self.posting@[key]@,
                i,
            ) == (i < files.len() && files[i].holds(key))
    }

    /// The index of `files`. A file whose content is not known counts for no pair,
    /// but is listed as one that may hold anything.
    pub fn build(files: &Vec<ScannedFile>) -> (res: GrepBigram)
        ensures
            res.indexes(files@),
    {
        let n = files.len();
        let words = word_count(n);
        let mut paths: Vec<String> = Vec::new();
        let mut posting: HashMap<u16, Vec<u64>> = HashMap::new();
        let mut fingerprints: Vec<FileFingerprint> = Vec::new();
        let mut unknown: Vec<bool> = Vec::new();
        let ghost nothing: Set<u16> = Set::empty();
        let mut idx: usize = 0;
        while idx < n
            invariant
                n == files@.len(),
                words == words_for(n as int),
                idx <= n,
                paths@.len() == idx,
                fingerprints@.len() == idx,
                forall|i: int| 0 <= i < idx ==> (#[trigger] paths@[i])@ == files@[i].path@,
                forall|i: int|
                    0 <= i < idx ==> #[trigger] fingerprints@[i] == files@[i].fingerprint(),
                unknown@.len() == idx,
                forall|i: int|
                    0 <= i < idx ==> #[trigger] unknown@[i] == (files@[i].scan is Unknown),
                holds_so_far(posting@, files@, idx as int, nothing, words as int),
                nothing == Set::<u16>::empty(),
            decreases n - idx,
        {
            let file = &files[idx];
            paths.push(file.path.clone());
            match &file.scan {
                Scan::Unknown { fingerprint } => {
                    unknown.push(true);
                    fingerprints.push(*fingerprint);
                },
                Scan::Binary { fingerprint } => {
                    unknown.push(false);
                    fingerprints.push(*fingerprint);
                },
                Scan::Known { pairs, fingerprint } => {
                    unknown.push(false);
                    fingerprints.push(*fingerprint);
                    let ghost mut seen: Set<u16> = nothing;
                    for key in it: pairs.iter()
                        invariant
                            words == words_for(n as int),
                            n == files@.len(),
                            idx < n,
                            holds_so_far(posting@, files@, idx as int, seen, words as int),
                            forall|k: u16| #[trigger]
                                seen.contains(k) == exists|j: int|
                                    0 <= j < it.index() && *(#[trigger] it.seq()[j]) == k,
                            it.seq().unref().to_set() == pairs@,
                            it.index() == it.seq().len() ==> seen == pairs@,
                    {
                        let ghost before = posting@;
                        add_file(&mut posting, *key, idx, words);
                        proof {
                            let next = seen.insert(*key);
                            lemma_key_added(
                                before,
                                posting@,
                                files@,
                                idx as int,
                                seen,
                                *key,
                                words as int,
                            );
                            assert forall|k: u16| #[trigger] next.contains(k) == exists|j: int|
                                0 <= j < it.index() + 1 && *(#[trigger] it.seq()[j]) == k by {
                                if seen.contains(k) {
                                    let j = choose|j: int|
                                        0 <= j < it.index() && *(#[trigger] it.seq()[j]) == k;
                                    assert(*it.seq()[j] == k);
                                }
                                if k == *key {
                                    assert(*it.seq()[it.index() as int] == k);
                                }
                            }
                            seen = next;
                        }
                        assert(it.index() + 1 == it.seq().len() ==> seen == pairs@) by {
                            if it.index() + 1 == it.seq().len() {
                                assert forall|k: u16| #[trigger] seen.contains(k) == exists|j: int|
                                    0 <= j < it.seq().unref().len()
                                        && #[trigger] it.seq().unref()[j] == k by {
                                    if seen.contains(k) {
                                        let j = choose|j: int|
                                            0 <= j < it.seq().len() && *(#[trigger] it.seq()[j])
                                                == k;
                                        assert(it.seq().unref()[j] == k);
                                    }
                                }
                                lemma_all_seen(it.seq().unref(), seen, pairs@);
                            }
                        }
                    }
                },
            }
            idx = idx + 1;
        }
        GrepBigram { paths, posting, fingerprints, unknown }
    }

    /// The words of a pair leave file `i` in: its bit is set, or they do not
    /// reach so far.
    pub open spec fn leaves_in(words: Seq<u64>, i: int) -> bool {
        i / 64 >= words.len() || bit(words, i)
    }

    /// Every pair of `pattern` occurs in some file.
    pub open spec fn knows_pairs(self, pattern: Seq<u8>) -> bool {
        forall|w: int| #[trigger]
            is_pair(pattern, w) ==> self.posting@.contains_key(key_at(pattern, w))
    }

    /// File `i` may hold `pattern`: none of the pairs rules it out.
    pub open spec fn may_hold(self, pattern: Seq<u8>, i: int) -> bool {
        forall|w: int| #[trigger]
            is_pair(pattern, w) ==> Self::leaves_in(self.posting@[key_at(pattern, w)]@, i)
    }

    /// Nothing is known of the content of file `i`.
    pub open spec fn is_unknown(self, i: int) -> bool {
        i >= self.unknown@.len() || self.unknown@[i]
    }

    /// File `i` survives the filter: its content is not known, or every pair of
    /// `pattern` occurs in some file and none of them rules it out.
    pub open spec fn survives(self, pattern: Seq<u8>, i: int) -> bool {
        self.is_unknown(i) || (self.knows_pairs(pattern) && self.may_hold(pattern, i))
    }

    /// The paths among the first `n` that survive the filter, in order.
    pub open spec fn survivors(self, pattern: Seq<u8>, n: int) -> Seq<Seq<char>>
        decreases n,
    {
        if n <= 0 {
            seq![]
        } else if self.survives(pattern, n - 1) {
            self.survivors(pattern, n - 1).push(self.paths@[n - 1]@)
        } else {
            self.survivors(pattern, n - 1)
        }
    }

    /// What the filter answers.
    pub open spec fn filtered(self, pattern: Seq<u8>) -> Option<Seq<Seq<char>>> {
        let n = self.paths@.len() as int;
        let left = self.survivors(pattern, n);
        if pattern.len() < 2 || n == 0 {
            None
        } else if !(exists|w: int| is_pair(pattern, w)) {
            None
        } else if self.knows_pairs(pattern) && n >= 100 && left.len() > n * 80 / 100 {
            None
        } else {
            Some(left)
        }
    }

    /// Whether nothing is known of the content of a file.
    fn lacks_content(&self, i: usize) -> (res: bool)
        ensures
            res == self.is_unknown(i as int),
    {
        i >= self.unknown.len() || self.unknown[i]
    }

    /// The paths of the files of which nothing is known: those that survive where
    /// a pair of the pattern occurs nowhere.
    fn unknown_paths(&self, Ghost(pattern): Ghost<Seq<u8>>) -> (res: Vec<&String>)
        requires
            !self.knows_pairs(pattern),
        ensures
            res@.map_values(|p: &String| p@) == self.survivors(
                pattern,
                self.paths@.len() as int,
            ),
    {
        let mut left: Vec<&String> = Vec::new();
        assert(left@.map_values(|p: &String| p@) =~= seq![]);
        let mut idx: usize = 0;
        while idx < self.paths.len()
            invariant
                idx <= self.paths@.len(),
                !self.knows_pairs(pattern),
                left@.map_values(|p: &String| p@) == self.survivors(pattern, idx as int),
            decreases self.paths@.len() - idx,
        {
            let ghost before = left@;
            if self.lacks_content(idx) {
                left.push(&self.paths[idx]);
                assert(left@.map_values(|p: &String| p@) =~= before.map_values(
                    |p: &String| p@,
                ).push(self.paths@[idx as int]@));
            }
            idx = idx + 1;
        }
        left
    }

    /// The paths that may hold `pattern`, those of unknown content among them.
    /// `None` means that every file has to be searched: the pattern has no pair
    /// that counts, or so many files are left that leaving out the others is not
    /// worth the effort.
    pub fn filter(&self, pattern: &[u8]) -> (res: Option<Vec<&String>>)
        ensures
            match res {
                Some(found) => self.filtered(pattern@) == Some(
                    found@.map_values(|p: &String| p@),
                ),
                None => self.filtered(pattern@) is None,
            },
    {
        if pattern.len() < 2 || self.paths.len() == 0 {
            return None;
        }
        let n = self.paths.len();
        let words = word_count(n);
        let mut candidates: Vec<u64> = vec![0xffff_ffff_ffff_ffffu64; words];
        assert forall|i: int| 0 <= i < n implies #[trigger] bit(candidates@, i) by {
            lemma_set_bit(0, 0, (i % 64) as u64);
        }
        let mut had_bigram = false;
        let mut w: usize = 0;
        while w < pattern.len() - 1
            invariant
                2 <= pattern@.len(),
                w <= pattern@.len() - 1,
                n == self.paths@.len(),
                n > 0,
                words == words_for(n as int),
                candidates@.len() == words,
                had_bigram == exists|v: int| v < w && is_pair(pattern@, v),
                forall|v: int|
                    v < w && #[trigger] is_pair(pattern@, v) ==> self.posting@.contains_key(
                        key_at(pattern@, v),
                    ),
                forall|i: int|
                    0 <= i < n ==> #[trigger] bit(candidates@, i) == forall|v: int|
                        v < w && #[trigger] is_pair(pattern@, v) ==> Self::leaves_in(
                            self.posting@[key_at(pattern@, v)]@,
                            i,
                        ),
            decreases pattern@.len() - w,
        {
            let a = pattern[w];
            let b = pattern[w + 1];
            if 32 <= a && a <= 126 && 32 <= b && b <= 126 {
                assert(is_pair(pattern@, w as int));
                let key = key_of(a, b);
                match self.posting.get(&key) {
                    Some(bs) => {
                        let ghost before = candidates@;
                        intersect(&mut candidates, bs);
                        had_bigram = true;
                        assert forall|i: int| 0 <= i < n implies #[trigger] bit(candidates@, i) == forall|
                            v: int,
                        |
                            v < w + 1 && #[trigger] is_pair(pattern@, v) ==> Self::leaves_in(
                                self.posting@[key_at(pattern@, v)]@,
                                i,
                            ) by {
                            assert(bit(candidates@, i) == (bit(before, i) && Self::leaves_in(
                                bs@,
                                i,
                            )));
                            if bit(candidates@, i) {
                                assert forall|v: int|
                                    v < w + 1 && #[trigger] is_pair(
                                        pattern@,
                                        v,
                                    ) implies Self::leaves_in(
                                    self.posting@[key_at(pattern@, v)]@,
                                    i,
                                ) by {
                                    if v < w {
                                        assert(is_pair(pattern@, v));
                                    }
                                }
                            }
                        }
                    },
                    None => {
                        assert(!self.knows_pairs(pattern@));
                        return Some(self.unknown_paths(Ghost(pattern@)));
                    },
                }
            } else {
                assert(!is_pair(pattern@, w as int));
                assert forall|i: int| 0 <= i < n implies #[trigger] bit(candidates@, i) == forall|
                    v: int,
                |
                    v < w + 1 && #[trigger] is_pair(pattern@, v) ==> Self::leaves_in(
                        self.posting@[key_at(pattern@, v)]@,
                        i,
                    ) by {
                    if bit(candidates@, i) {
                        assert forall|v: int|
                            v < w + 1 && #[trigger] is_pair(pattern@, v) implies Self::leaves_in(
                            self.posting@[key_at(pattern@, v)]@,
                            i,
                        ) by {
                            assert(v < w);
                        }
                    }
                }
            }
            w = w + 1;
        }
        assert(self.knows_pairs(pattern@)) by {
            assert forall|v: int| #[trigger] is_pair(
                pattern@,
                v,
            ) implies self.posting@.contains_key(key_at(pattern@, v)) by {
                assert(v < w);
            }
        }
        if !had_bigram {
            assert(!(exists|v: int| is_pair(pattern@, v))) by {
                if exists|v: int| is_pair(pattern@, v) {
                    let v = choose|v: int| is_pair(pattern@, v);
                    assert(v < w && is_pair(pattern@, v));
                }
            }
            return None;
        }
        assert forall|i: int| 0 <= i < n implies #[trigger] bit(candidates@, i) == self.may_hold(
            pattern@,
            i,
        ) by {
            if bit(candidates@, i) {
                assert forall|v: int| #[trigger] is_pair(pattern@, v) implies Self::leaves_in(
                    self.posting@[key_at(pattern@, v)]@,
                    i,
                ) by {
                    assert(v < w);
                }
            }
        }
        let mut left: Vec<&String> = Vec::new();
        assert(left@.map_values(|p: &String| p@) =~= seq![]);
        let mut idx: usize = 0;
        while idx < n
            invariant
                n == self.paths@.len(),
                idx <= n,
                words == words_for(n as int),
                candidates@.len() == words,
                self.knows_pairs(pattern@),
                left@.map_values(|p: &String| p@) == self.survivors(pattern@, idx as int),
                forall|i: int|
                    0 <= i < n ==> #[trigger] bit(candidates@, i) == self.may_hold(pattern@, i),
            decreases n - idx,
        {
            let ghost before = left@;
            assert(bit(candidates@, idx as int) == self.may_hold(pattern@, idx as int));
            if candidates[idx / 64] & (1u64 << ((idx % 64) as u64)) != 0 || self.lacks_content(
                idx,
            ) {
                left.push(&self.paths[idx]);
                assert(left@.map_values(|p: &String| p@) =~= before.map_values(
                    |p: &String| p@,
                ).push(self.paths@[idx as int]@));
            }
            idx = idx + 1;
        }
        if n >= 100 && left.len() > (n as u128 * 80 / 100) as usize {
            return None;
        }
        Some(left)
    }

    /// The number of each indexed path; of a path that is listed twice the
    /// later one.
    pub fn ordinal_map(&self) -> (res: PathTable)
        ensures
            res.wf(),
            res@ == ordinals(texts(self.paths@)),
    {
        let mut map = PathTable::new();
        let mut idx: usize = 0;
        assert(texts(self.paths@).take(0) =~= seq![]);
        while idx < self.paths.len()
            invariant
                idx <= self.paths@.len(),
                map.wf(),
                map@ == ordinals(texts(self.paths@).take(idx as int)),
            decreases self.paths@.len() - idx,
        {
            map.insert(self.paths[idx].as_str(), idx);
            let ghost next = texts(self.paths@).take(idx + 1);
            assert(next.drop_last() =~= texts(self.paths@).take(idx as int));
            idx = idx + 1;
        }
        assert(texts(self.paths@).take(idx as int) =~= texts(self.paths@));
        map
    }

    /// The file with the number that `ordinals` gives to `path` still has the
    /// fingerprint `now`.
    pub open spec fn unchanged(
        self,
        path: Seq<char>,
        ordinals: Map<Seq<char>, usize>,
        now: FileFingerprint,
    ) -> bool {
        &&& ordinals.contains_key(path)
        &&& ordinals[path] < self.fingerprints@.len()
        &&& self.fingerprints@[ordinals[path] as int] == now
    }

    /// Whether `path` is indexed and has not changed since, as far as `meta`
    /// tells. A file that the index does not list counts as changed.
    pub fn is_current_with_metadata(
        &self,
        path: &str,
        ordinals: &PathTable,
        meta: &FileMeta,
    ) -> (res: bool)
        requires
            ordinals.wf(),
        ensures
            res == self.unchanged(path@, ordinals@, fingerprint_of(*meta)),
    {
        match ordinals.get(path) {
            None => false,
            Some(idx) => {
                if idx >= self.fingerprints.len() {
                    return false;
                }
                let recorded = self.fingerprints[idx];
                let now = fingerprint_from_metadata(meta);
                recorded.0 == now.0 && recorded.1 == now.1
            },
        }
    }

    /// Like `is_current_with_metadata`, for a file that the file system may
    /// not know: then it counts as changed.
    pub fn is_current_at(
        &self,
        path: &str,
        ordinals: &PathTable,
        meta: &Option<FileMeta>,
    ) -> (res: bool)
        requires
            ordinals.wf(),
        ensures
            res == (meta matches Some(m) && self.unchanged(
                path@,
                ordinals@,
                fingerprint_of(*m),
            )),
    {
        match meta {
            None => false,
            Some(m) => self.is_current_with_metadata(path, ordinals, m),
        }
    }

    /// Like `is_current_at`, with the index's own numbering.
    pub fn is_current(&self, path: &str, meta: &Option<FileMeta>) -> (res: bool)
        ensures
            res == (meta matches Some(m) && self.unchanged(
                path@,
                ordinals(texts(self.paths@)),
                fingerprint_of(*m),
            )),
    {
        let map = self.ordinal_map();
        self.is_current_at(path, &map, meta)
    }

    /// How many files are indexed.
    pub fn file_count(&self) -> (res: usize)
        ensures
            res == self.paths@.len(),
    {
        self.paths.len()
    }

    /// How many pairs occur.
    pub fn bigram_count(&self) -> (res: usize)
        ensures
            res == self.posting@.len(),
    {
        self.posting.len()
    }
}

/// The last position of each text of a list.
pub open spec fn ordinals(paths: Seq<Seq<char>>) -> Map<Seq<char>, usize>
    decreases paths.len(),
{
    if paths.len() == 0 {
        Map::empty()
    } else {
        ordinals(paths.drop_last()).insert(paths.last(), (paths.len() - 1) as usize)
    }
}

/// The numbering lists the paths of the list and no others, and gives to each
/// the last position at which it stands.
pub proof fn law_ordinals(paths: Seq<Seq<char>>, path: Seq<char>)
    requires
        paths.len() <= usize::MAX,
    ensures
        ordinals(paths).contains_key(path) <==> paths.contains(path),
        ordinals(paths).contains_key(path) ==> {
            let at = ordinals(paths)[path] as int;
            &&& at < paths.len()
            &&& paths[at] == path
            &&& forall|i: int| at < i < paths.len() ==> #[trigger] paths[i] != path
        },
    decreases paths.len(),
{
    if paths.len() > 0 {
        let front = paths.drop_last();
        law_ordinals(front, path);
        if path == paths.last() {
            assert(paths[paths.len() - 1] == path);
        } else {
            if front.contains(path) {
                let i = front.index_of(path);
                assert(paths[i] == path);
            }
            if paths.contains(path) {
                let i = paths.index_of(path);
                assert(front[i] == path);
            }
            if ordinals(front).contains_key(path) {
                let at = ordinals(front)[path] as int;
                assert forall|i: int| at < i < paths.len() implies #[trigger] paths[i] != path by {
                    if i < front.len() {
                        assert(front[i] != path);
                    }
                }
                assert(paths[at] == front[at]);
            }
        }
    }
}

/// Letters that are the same but for case give pairs with the same number.
proof fn lemma_same_key(a: u8, b: u8, c: u8, d: u8)
    requires
        same_letter(a, c),
        same_letter(b, d),
    ensures
        bigram_key(a, b) == bigram_key(c, d),
        printable(c) ==> printable(a),
{
}

/// A file that survives is among the survivors.
proof fn lemma_survives(index: GrepBigram, pattern: Seq<u8>, n: int, i: int)
    requires
        0 <= i < n <= index.paths@.len(),
        index.survives(pattern, i),
    ensures
        index.survivors(pattern, n).contains(index.paths@[i]@),
    decreases n,
{
    if i == n - 1 {
        let front = index.survivors(pattern, n - 1);
        assert(index.survivors(pattern, n)[front.len() as int] == index.paths@[i]@);
    } else {
        lemma_survives(index, pattern, n - 1, i);
        let front = index.survivors(pattern, n - 1);
        let k = front.index_of(index.paths@[i]@);
        assert(index.survivors(pattern, n)[k] == index.paths@[i]@);
    }
}

/// A file of unknown content survives the filter: either every file is to be
/// searched, or it is among those that the filter names.
pub proof fn law_unknown_files_survive(
    index: GrepBigram,
    files: Seq<ScannedFile>,
    i: int,
    pattern: Seq<u8>,
)
    requires
        index.indexes(files),
        0 <= i < files.len(),
        files[i].scan is Unknown,
    ensures
        index.filtered(pattern) matches Some(found) ==> found.contains(files[i].path@),
{
    assert(index.unknown@[i]);
    lemma_survives(index, pattern, index.paths@.len() as int, i);
    assert(index.paths@[i]@ == files[i].path@);
}

/// The filter never drops a text file that holds the pattern, whatever the case
/// of its letters, nor a file of unknown content: either every file is to be
/// searched, or the file is among those that the filter names.
pub proof fn law_no_false_negatives(
    index: GrepBigram,
    files: Seq<ScannedFile>,
    i: int,
    content: Seq<u8>,
    pattern: Seq<u8>,
    at: int,
)
    requires
        index.indexes(files),
        0 <= i < files.len(),
        files[i].scan !is Binary,
        files[i].tells_of(content),
        folds_at(content, pattern, at),
    ensures
        index.filtered(pattern) matches Some(found) ==> found.contains(files[i].path@),
{
    if files[i].scan is Unknown {
        law_unknown_files_survive(index, files, i, pattern);
    } else {
        assert forall|w: int| #[trigger] is_pair(pattern, w) implies index.posting@.contains_key(
            key_at(pattern, w),
        ) && GrepBigram::leaves_in(index.posting@[key_at(pattern, w)]@, i) by {
            let key = key_at(pattern, w);
            assert(same_letter(content[at + w], pattern[w]));
            assert(same_letter(content[at + (w + 1)], pattern[w + 1]));
            lemma_same_key(content[at + w], content[at + (w + 1)], pattern[w], pattern[w + 1]);
            lemma_same_key(content[at + (w + 1)], content[at + w], pattern[w + 1], pattern[w]);
            assert(is_pair(content, at + w) && key_at(content, at + w) == key);
            assert(files[i].holds(key));
            assert(bit(index.posting@[key]@, i) == files[i].holds(key));
        }
        assert(index.may_hold(pattern, i));
        lemma_survives(index, pattern, index.paths@.len() as int, i);
        assert(index.paths@[i]@ == files[i].path@);
    }
}

proof fn lemma_key_value(x: u16, y: u16)
    by (bit_vector)
    requires
        x < 256,
        y < 256,
    ensures
        (x << 8) | y == x * 256 + y,
{
}

/// Two pairs of bytes share a key if and only if they are the same but for the case
/// of ASCII letters.
pub proof fn law_pair_keys(a: u8, b: u8, c: u8, d: u8)
    ensures
        bigram_key(a, b) == bigram_key(c, d) <==> {
            &&& a == c || (65 <= a <= 90 && c == a + 32) || (65 <= c <= 90 && a == c + 32)
            &&& b == d || (65 <= b <= 90 && d == b + 32) || (65 <= d <= 90 && b == d + 32)
        },
{
    lemma_key_value(ascii_lower(a) as u16, ascii_lower(b) as u16);
    lemma_key_value(ascii_lower(c) as u16, ascii_lower(d) as u16);
}

/// A text has the key of each two bytes in it that stand side by side and are both
/// printable ASCII, from the first two to the last two, and no other key.
pub proof fn law_pairs_of_a_text(s: Seq<u8>, key: u16)
    ensures
        has_bigram(s, key) <==> exists|i: int|
            0 <= i < s.len() - 1 && 32 <= #[trigger] s[i] <= 126 && 32 <= s[i + 1] <= 126
                && bigram_key(s[i], s[i + 1]) == key,
{
    if has_bigram(s, key) {
        let i = choose|i: int| #[trigger] is_pair(s, i) && key_at(s, i) == key;
        assert(32 <= s[i] <= 126);
    }
    if exists|i: int|
        0 <= i < s.len() - 1 && 32 <= #[trigger] s[i] <= 126 && 32 <= s[i + 1] <= 126 && bigram_key(
            s[i],
            s[i + 1],
        ) == key {
        let i = choose|i: int|
            0 <= i < s.len() - 1 && 32 <= #[trigger] s[i] <= 126 && 32 <= s[i + 1] <= 126
                && bigram_key(s[i], s[i + 1]) == key;
        assert(is_pair(s, i) && key_at(s, i) == key);
    }
}

/// A file looks binary if and only if there is a zero among its first 8192 bytes.
pub proof fn law_binary_files(s: Seq<u8>)
    ensures
        looks_binary(s) <==> exists|i: int| 0 <= i < 8192 && i < s.len() && #[trigger] s[i] == 0,
{
}

/// A file of one byte to four MiB that could be read before and after is either
/// indexed or known as binary, and an empty one is known to be empty. Nothing else
/// is known.
pub proof fn law_what_is_known(
    meta: Option<FileMeta>,
    content: Option<Seq<u8>>,
    after: Option<FileFingerprint>,
)
    ensures
        ({
            let read = meta is Some && content is Some && after is Some && meta->0.is_file;
            let indexed = indexable(meta, content, after);
            let binary = known_binary(meta, content, after);
            let empty = known_empty(meta, content, after);
            &&& read && 0 < meta->0.len <= 4194304 ==> indexed == !looks_binary(content->0)
                && binary == looks_binary(content->0) && !empty
            &&& read && meta->0.len == 0 ==> empty == (content->0.len() == 0) && !indexed
                && !binary
            &&& !read || meta->0.len > 4194304 ==> !indexed && !binary && !empty
        }),
{
}

/// The fingerprint of a file tells its time of change and its length.
pub proof fn law_fingerprints(a: FileMeta, b: FileMeta)
    ensures
        fingerprint_of(a).1 == a.len,
        a.modified is Some && a.modified->0 <= i64::MAX ==> fingerprint_of(a).0 == a.modified->0,
        a.modified is None ==> fingerprint_of(a).0 == 0,
        a.len != b.len ==> fingerprint_of(a) != fingerprint_of(b),
        a.modified is Some && b.modified is Some && a.modified->0 < b.modified->0 <= i64::MAX
            ==> fingerprint_of(a) != fingerprint_of(b),
{
}

proof fn lemma_survivor(index: GrepBigram, pattern: Seq<u8>, n: int, path: Seq<char>)
    requires
        n <= index.paths@.len(),
        index.survivors(pattern, n).contains(path),
    ensures
        exists|i: int|
            0 <= i < n && (#[trigger] index.paths@[i])@ == path && index.survives(pattern, i),
    decreases n,
{
    let all = index.survivors(pattern, n);
    let rest = index.survivors(pattern, n - 1);
    let k = all.index_of(path);
    if index.survives(pattern, n - 1) && k == rest.len() {
        assert(index.paths@[n - 1]@ == path);
    } else {
        assert(rest[k] == path);
        lemma_survivor(index, pattern, n - 1, path);
        let i = choose|i: int|
            0 <= i < n - 1 && (#[trigger] index.paths@[i])@ == path && index.survives(pattern, i);
        assert(index.paths@[i]@ == path);
    }
}

/// A filter is worth something: a file that is known, and lacks a pair of the
/// pattern, is not among the candidates.
pub proof fn law_files_without_a_pair_are_dropped(
    index: GrepBigram,
    files: Seq<ScannedFile>,
    i: int,
    pattern: Seq<u8>,
    w: int,
)
    requires
        index.indexes(files),
        0 <= i < files.len(),
        files[i].scan !is Unknown,
        forall|j: int| 0 <= j < files.len() && j != i ==> (#[trigger] files[j]).path@ != files[i].path@,
        is_pair(pattern, w),
        !files[i].holds(key_at(pattern, w)),
    ensures
        index.filtered(pattern) matches Some(found) ==> !found.contains(files[i].path@),
{
    let key = key_at(pattern, w);
    let n = index.paths@.len() as int;
    if let Some(found) = index.filtered(pattern) {
        if found.contains(files[i].path@) {
            lemma_survivor(index, pattern, n, files[i].path@);
            let j = choose|j: int|
                0 <= j < n && (#[trigger] index.paths@[j])@ == files[i].path@ && index.survives(
                    pattern,
                    j,
                );
            assert(files[j].path@ == files[i].path@);
            assert(j == i);
            assert(!index.unknown@[i]);
            assert(index.posting@.contains_key(key));
            assert(GrepBigram::leaves_in(index.posting@[key]@, i));
            assert(bit(index.posting@[key]@, i) == files[i].holds(key));
        }
    }
}

/// A filter answers for every pattern with two printable bytes side by side, unless
/// it has nothing to tell: with a hundred files or more, it keeps silent where more
/// than four fifths of them would be left.
pub proof fn law_when_a_filter_answers(index: GrepBigram, pattern: Seq<u8>, w: int)
    ensures
        pattern.len() < 2 ==> index.filtered(pattern) is None,
        index.paths@.len() == 0 ==> index.filtered(pattern) is None,
        (forall|i: int|
            0 <= i < pattern.len() - 1 ==> !(32 <= #[trigger] pattern[i] <= 126 && 32 <= pattern[i
                + 1] <= 126)) ==> index.filtered(pattern) is None,
        0 <= w < pattern.len() - 1 && 32 <= pattern[w] <= 126 && 32 <= pattern[w + 1] <= 126 && 0
            < index.paths@.len() < 100 ==> index.filtered(pattern) is Some,
        0 <= w < pattern.len() - 1 && 32 <= pattern[w] <= 126 && 32 <= pattern[w + 1] <= 126 && 0
            < index.paths@.len() && !index.posting@.contains_key(
            bigram_key(pattern[w], pattern[w + 1]),
        ) ==> index.filtered(pattern) is Some,
        index.filtered(pattern) matches Some(found) ==> (index.paths@.len() >= 100
            && index.knows_pairs(pattern) ==> found.len() * 5 <= index.paths@.len() * 4),
        index.filtered(pattern) is None && 0 <= w < pattern.len() - 1 && 32 <= pattern[w] <= 126
            && 32 <= pattern[w + 1] <= 126 && index.paths@.len() > 0 ==> index.survivors(
            pattern,
            index.paths@.len() as int,
        ).len() * 5 > index.paths@.len() * 4,
{
    if 0 <= w < pattern.len() - 1 && 32 <= pattern[w] <= 126 && 32 <= pattern[w + 1] <= 126 {
        assert(is_pair(pattern, w));
        assert(key_at(pattern, w) == bigram_key(pattern[w], pattern[w + 1]));
    }
    if exists|i: int| is_pair(pattern, i) {
        let i = choose|i: int| is_pair(pattern, i);
        assert(32 <= pattern[i] <= 126 && 32 <= pattern[i + 1] <= 126);
    }
}

/// A file is unchanged if and only if its fingerprint is the one that the index has
/// of the last file with its path.
pub proof fn law_unchanged_files(
    index: GrepBigram,
    files: Seq<ScannedFile>,
    path: Seq<char>,
    now: FileFingerprint,
)
    requires
        index.indexes(files),
    ensures
        index.unchanged(path, ordinals(texts(index.paths@)), now) <==> exists|i: int|
            0 <= i < files.len() && (#[trigger] files[i]).path@ == path && files[i].fingerprint()
                == now && forall|j: int| i < j < files.len() ==> (#[trigger] files[j]).path@ != path,
{
    let paths = texts(index.paths@);
    assert(paths.len() == index.paths@.len() && index.paths@.len() == index.paths.len());
    law_ordinals(paths, path);
    let map = ordinals(paths);
    if index.unchanged(path, map, now) {
        let at = map[path] as int;
        assert(paths[at] == index.paths@[at]@);
        assert(files[at].path@ == path);
        assert(index.fingerprints@[at] == files[at].fingerprint());
        assert forall|j: int| at < j < files.len() implies (#[trigger] files[j]).path@ != path by {
            assert(paths[j] == index.paths@[j]@);
        }
    }
    if exists|i: int|
        0 <= i < files.len() && (#[trigger] files[i]).path@ == path && files[i].fingerprint() == now
            && forall|j: int| i < j < files.len() ==> (#[trigger] files[j]).path@ != path {
        let i = choose|i: int|
            0 <= i < files.len() && (#[trigger] files[i]).path@ == path && files[i].fingerprint()
                == now && forall|j: int| i < j < files.len() ==> (#[trigger] files[j]).path@ != path;
        assert(paths[i] == index.paths@[i]@);
        assert(paths.contains(path));
        let at = map[path] as int;
        if at < i {
            assert(paths[i] != path);
        }
        if i < at {
            assert(paths[at] == index.paths@[at]@);
            assert(files[at].path@ == path);
        }
        assert(index.fingerprints@[at] == files[at].fingerprint());
    }
}

} // verus!
