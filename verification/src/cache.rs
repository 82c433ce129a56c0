//! The on-disk cache of the symbol index and of the bigram index.
//!
//! ```text
//! .ffs/
//!   meta.json                    what the cache belongs to
//!   symbol_index.postcard.zst    the symbol index, compressed
//!   bigram.postcard.zst          the bigram index, compressed
//! ```
//!
//! The cache is fresh when its schema is the current one, the repository's head
//! is the one that it was made for, and the number of files has not moved far.
//! A symbol index that is not fresh but can be read is brought up to date file
//! by file.

use vstd::prelude::*;
use vstd::string::StringExecFns;

use crate::bigram::MAX_FILE_BYTES;
use crate::path_table::PathTable;
use crate::paths::join;
use crate::paths::joined;
use crate::text::begins_with;
use crate::text::law_trims;
use crate::text::strip_prefix;
use crate::text::texts;
use crate::text::trim;
use crate::text::trimmed;
use crate::text::whitespace;

verus! {

/// The compression level of the payloads.
pub const ZSTD_LEVEL: i32 = 3;

/// With fewer files than this, reading every file is as fast as loading the
/// bigram index.
pub const BIGRAM_MIN_FILES: usize = 2000;

/// What a cache belongs to.
#[derive(Debug)]
pub struct CacheMeta {
    /// The version of its form.
    pub schema_version: String,
    /// The version of the program that wrote it.
    pub ffs_version: String,
    /// The head of the repository, if there was one.
    pub git_head: Option<String>,
    /// How many files were indexed.
    pub file_count: usize,
    /// When it was written, in milliseconds from the epoch.
    pub generated_at_ms: u128,
}

/// A text that may be missing.
pub open spec fn maybe(s: Option<String>) -> Option<Seq<char>> {
    match s {
        Some(text) => Some(text@),
        None => None,
    }
}

/// What a frame of compressed data holds, or `None` where it is no such frame.
pub uninterp spec fn zstd_content(frame: Seq<u8>) -> Option<Seq<u8>>;

/// The frame of compressed data that holds `payload`.
pub uninterp spec fn zstd_frame(payload: Seq<u8>, level: i32) -> Seq<u8>;

/// `zstd::stream::decode_all`: what the frame holds, which depends on its bytes
/// alone; nothing where they are no such frame. That memory may run out is left
/// aside, as it is for any vector that grows.
#[verifier::external_body]
fn zstd_decode(frame: &[u8]) -> (res: Option<Vec<u8>>)
    ensures
        match res {
            Some(payload) => zstd_content(frame@) == Some(payload@),
            None => zstd_content(frame@) is None,
        },
{
    zstd::stream::decode_all(frame).ok()
}

/// Why `payload` cannot be compressed at `level`, or `None` where it can.
pub uninterp spec fn zstd_refusal(payload: Seq<u8>, level: i32) -> Option<Seq<char>>;

/// `zstd::stream::copy_encode`: a frame that holds the payload, so that decoding
/// it gives the payload back, or the reason why there is none. Either depends on
/// the payload and the level alone. That memory may run out is left aside, as it
/// is for any vector that grows.
#[verifier::external_body]
fn zstd_encode(payload: &[u8], level: i32) -> (res: Result<Vec<u8>, String>)
    ensures
        match res {
            Ok(frame) => {
                &&& zstd_refusal(payload@, level) is None
                &&& frame@ == zstd_frame(payload@, level)
                &&& zstd_content(frame@) == Some(payload@)
            },
            Err(detail) => zstd_refusal(payload@, level) == Some(detail@),
        },
{
    let mut frame = Vec::new();
    zstd::stream::copy_encode(payload, &mut frame, level).map_err(|e| e.to_string())?;
    Ok(frame)
}

/// The count is within a twentieth of what was expected, or within ten.
pub open spec fn within_tolerance(now: int, expected: int) -> bool {
    let drift = if now <= expected {
        expected - now
    } else {
        now - expected
    };
    drift <= 10 || drift <= expected / 20
}

/// The cache has the current form.
pub open spec fn schema_fits(meta: CacheMeta) -> bool {
    meta.schema_version@ == "v1"@
}

/// The cache can be used as it is.
pub open spec fn fresh(meta: CacheMeta, head: Option<Seq<char>>, files_now: int) -> bool {
    &&& schema_fits(meta)
    &&& maybe(meta.git_head) == head
    &&& within_tolerance(files_now, meta.file_count as int)
}

/// What a compressed file holds, if there is such a file.
pub open spec fn payload_of(file: Option<Vec<u8>>) -> Option<Seq<u8>> {
    match file {
        Some(bytes) => zstd_content(bytes@),
        None => None,
    }
}

/// The bytes of a symbol index that can be used as it is.
pub open spec fn symbol_payload(
    meta: Option<CacheMeta>,
    head: Option<Seq<char>>,
    files_now: int,
    file: Option<Vec<u8>>,
) -> Option<Seq<u8>> {
    match meta {
        Some(m) => if fresh(m, head, files_now) {
            payload_of(file)
        } else {
            None
        },
        None => None,
    }
}

/// The bytes of a symbol index that can be brought up to date.
pub open spec fn stale_payload(meta: Option<CacheMeta>, file: Option<Vec<u8>>) -> Option<Seq<u8>> {
    match meta {
        Some(m) => if schema_fits(m) {
            payload_of(file)
        } else {
            None
        },
        None => None,
    }
}

/// The bigram index can be used and is worth loading.
pub open spec fn bigram_ready(meta: CacheMeta, head: Option<Seq<char>>) -> bool {
    &&& schema_fits(meta)
    &&& meta.file_count >= BIGRAM_MIN_FILES
    &&& maybe(meta.git_head) == head
}

/// The bytes of a bigram index that can be used.
pub open spec fn bigram_payload(
    meta: Option<CacheMeta>,
    head: Option<Seq<char>>,
    file: Option<Vec<u8>>,
) -> Option<Seq<u8>> {
    match meta {
        Some(m) => if bigram_ready(m, head) {
            payload_of(file)
        } else {
            None
        },
        None => None,
    }
}

/// The bytes are those, or there are none.
pub open spec fn gives(res: Option<Vec<u8>>, wanted: Option<Seq<u8>>) -> bool {
    match res {
        Some(bytes) => wanted == Some(bytes@),
        None => wanted is None,
    }
}

/// Whether the head is the expected one.
pub fn head_matches(head: &Option<String>, expected: &Option<String>) -> (res: bool)
    ensures
        res == (maybe(*head) == maybe(*expected)),
{
    match (head, expected) {
        (None, None) => true,
        (Some(a), Some(b)) => *a.as_str() == *b.as_str(),
        _ => false,
    }
}

/// Whether the number of files is near what was expected: within a twentieth,
/// or within ten.
pub fn file_count_within_tolerance(now: usize, expected: usize) -> (res: bool)
    ensures
        res == within_tolerance(now as int, expected as int),
{
    let drift: usize = if now <= expected {
        expected - now
    } else {
        now - expected
    };
    drift <= 10 || drift <= expected / 20
}

/// Whether the cache has the current form and belongs to the head. Only then
/// does the number of files matter.
pub fn belongs(meta: &CacheMeta, head: &Option<String>) -> (res: bool)
    ensures
        res == (schema_fits(*meta) && maybe(meta.git_head) == maybe(*head)),
{
    has_schema(meta) && head_matches(head, &meta.git_head)
}

/// Whether the bigram index can be used and is worth loading.
pub fn bigram_index_fits(meta: &CacheMeta, head: &Option<String>) -> (res: bool)
    ensures
        res == bigram_ready(*meta, maybe(*head)),
{
    has_schema(meta) && meta.file_count >= BIGRAM_MIN_FILES && head_matches(head, &meta.git_head)
}

/// Whether the cache has the current form.
fn has_schema(meta: &CacheMeta) -> (res: bool)
    ensures
        res == schema_fits(*meta),
{
    *meta.schema_version.as_str() == *"v1"
}

/// What a compressed file holds.
fn read_payload(file: &Option<Vec<u8>>) -> (res: Option<Vec<u8>>)
    ensures
        gives(res, payload_of(*file)),
{
    match file {
        Some(bytes) => zstd_decode(bytes.as_slice()),
        None => None,
    }
}

/// A file to write.
#[derive(Debug)]
pub struct FileWrite {
    /// Its path.
    pub path: String,
    /// Its content.
    pub bytes: Vec<u8>,
}

/// A symbol index to write: the index, and what it belongs to.
#[derive(Debug)]
pub struct SymbolWrite {
    /// The compressed index.
    pub payload: FileWrite,
    /// The path of the description.
    pub meta_path: String,
    /// The description.
    pub meta: CacheMeta,
}

/// The payload could not be compressed.
#[derive(Debug)]
pub struct CompressError {
    /// Why.
    pub detail: String,
}

/// The `.ffs` directory below a root.
#[derive(Debug)]
pub struct CacheDir {
    dir: String,
}

impl CacheDir {
    /// The path of the directory.
    pub closed spec fn spec_dir(self) -> Seq<char> {
        self.dir@
    }

    /// The cache directory for `root`.
    #[must_use]
    pub fn at(root: &str) -> (res: CacheDir)
        ensures
            res.spec_dir() == joined(root@, ".ffs"@),
    {
        CacheDir { dir: join(root, ".ffs") }
    }

    /// The path of the directory.
    pub fn dir(&self) -> (res: &String)
        ensures
            res@ == self.spec_dir(),
    {
        &self.dir
    }

    /// The path of the symbol index.
    #[must_use]
    pub fn symbol_path(&self) -> (res: String)
        ensures
            res@ == joined(self.spec_dir(), "symbol_index.postcard.zst"@),
    {
        join(self.dir.as_str(), "symbol_index.postcard.zst")
    }

    /// The path of the description.
    #[must_use]
    pub fn meta_path(&self) -> (res: String)
        ensures
            res@ == joined(self.spec_dir(), "meta.json"@),
    {
        join(self.dir.as_str(), "meta.json")
    }

    /// The path of the bigram index.
    #[must_use]
    pub fn bigram_path(&self) -> (res: String)
        ensures
            res@ == joined(self.spec_dir(), "bigram.postcard.zst"@),
    {
        join(self.dir.as_str(), "bigram.postcard.zst")
    }

    /// The bytes of the symbol index, if it can be used as it is: `meta` is the
    /// description, `head` the head of the repository, `files_now` the number
    /// of files, and `file` the compressed index.
    pub fn load_symbol_index(
        &self,
        meta: &Option<CacheMeta>,
        head: &Option<String>,
        files_now: usize,
        file: &Option<Vec<u8>>,
    ) -> (res: Option<Vec<u8>>)
        ensures
            gives(res, symbol_payload(*meta, maybe(*head), files_now as int, *file)),
    {
        match meta {
            None => None,
            Some(m) => {
                if !belongs(m, head) {
                    return None;
                }
                if !file_count_within_tolerance(files_now, m.file_count) {
                    return None;
                }
                read_payload(file)
            },
        }
    }

    /// The bytes of the symbol index, if it has the current form, whatever has
    /// changed since.
    pub fn load_symbol_index_stale(
        &self,
        meta: &Option<CacheMeta>,
        file: &Option<Vec<u8>>,
    ) -> (res: Option<Vec<u8>>)
        ensures
            gives(res, stale_payload(*meta, *file)),
    {
        match meta {
            None => None,
            Some(m) => {
                if !has_schema(m) {
                    return None;
                }
                read_payload(file)
            },
        }
    }

    /// The bytes of the bigram index, if it belongs to the head and is worth
    /// loading. Without it every file is searched.
    pub fn load_bigram_index(
        &self,
        meta: &Option<CacheMeta>,
        head: &Option<String>,
        file: &Option<Vec<u8>>,
    ) -> (res: Option<Vec<u8>>)
        ensures
            gives(res, bigram_payload(*meta, maybe(*head), *file)),
    {
        match meta {
            None => None,
            Some(m) => {
                if !bigram_index_fits(m, head) {
                    return None;
                }
                read_payload(file)
            },
        }
    }

    /// What to write for a bigram index with the given bytes. Loading it gives
    /// the bytes back, as long as the cache is ready for it. An error comes if and
    /// only if the compressor refuses them, with its reason.
    pub fn write_bigram_index(&self, payload: &[u8]) -> (res: Result<FileWrite, CompressError>)
        ensures
            match res {
                Ok(w) => {
                    &&& zstd_refusal(payload@, ZSTD_LEVEL) is None
                    &&& w.path@ == joined(self.spec_dir(), "bigram.postcard.zst"@)
                    &&& w.bytes@ == zstd_frame(payload@, ZSTD_LEVEL)
                    &&& forall|meta: CacheMeta, head: Option<Seq<char>>| #[trigger]
                        bigram_ready(meta, head) ==> bigram_payload(Some(meta), head, Some(w.bytes))
                            == Some(payload@)
                },
                Err(e) => zstd_refusal(payload@, ZSTD_LEVEL) == Some(e.detail@),
            },
    {
        self.bigram_file(zstd_encode(payload, ZSTD_LEVEL))
    }

    /// The file of a bigram index with the given compressed bytes; an error if
    /// and only if there are none, with the reason that is given.
    pub fn bigram_file(&self, encoded: Result<Vec<u8>, String>) -> (res: Result<
        FileWrite,
        CompressError,
    >)
        ensures
            match encoded {
                Ok(frame) => {
                    &&& res matches Ok(w)
                    &&& w.path@ == joined(self.spec_dir(), "bigram.postcard.zst"@)
                    &&& w.bytes == frame
                },
                Err(detail) => res matches Err(e) && e.detail == detail,
            },
    {
        match encoded {
            Ok(frame) => Ok(FileWrite { path: self.bigram_path(), bytes: frame }),
            Err(detail) => Err(CompressError { detail }),
        }
    }

    /// The files of a symbol index with the given compressed bytes; an error if
    /// and only if there are none, with the reason that is given.
    pub fn symbol_files(
        &self,
        encoded: Result<Vec<u8>, String>,
        head: Option<String>,
        file_count: usize,
        version: &str,
        now_ms: u128,
    ) -> (res: Result<SymbolWrite, CompressError>)
        ensures
            match encoded {
                Ok(frame) => {
                    &&& res matches Ok(w)
                    &&& w.payload.path@ == joined(self.spec_dir(), "symbol_index.postcard.zst"@)
                    &&& w.payload.bytes == frame
                    &&& w.meta_path@ == joined(self.spec_dir(), "meta.json"@)
                    &&& w.meta.schema_version@ == "v1"@
                    &&& w.meta.ffs_version@ == version@
                    &&& w.meta.git_head == head
                    &&& w.meta.file_count == file_count
                    &&& w.meta.generated_at_ms == now_ms
                },
                Err(detail) => res matches Err(e) && e.detail == detail,
            },
    {
        let frame = match encoded {
            Ok(frame) => frame,
            Err(detail) => {
                return Err(CompressError { detail });
            },
        };
        let meta = CacheMeta {
            schema_version: String::from_str("v1"),
            ffs_version: version.to_owned(),
            git_head: head,
            file_count,
            generated_at_ms: now_ms,
        };
        Ok(
            SymbolWrite {
                payload: FileWrite { path: self.symbol_path(), bytes: frame },
                meta_path: self.meta_path(),
                meta,
            },
        )
    }

    /// What to write for a symbol index with the given bytes. Loading it gives
    /// the bytes back, as long as the head is the same and the number of files
    /// has not moved far. An error comes if and only if the compressor refuses
    /// them, with its reason.
    pub fn write_symbol_index(
        &self,
        payload: &[u8],
        head: Option<String>,
        file_count: usize,
        version: &str,
        now_ms: u128,
    ) -> (res: Result<SymbolWrite, CompressError>)
        ensures
            match res {
                Ok(w) => {
                    &&& zstd_refusal(payload@, ZSTD_LEVEL) is None
                    &&& w.payload.path@ == joined(self.spec_dir(), "symbol_index.postcard.zst"@)
                    &&& w.payload.bytes@ == zstd_frame(payload@, ZSTD_LEVEL)
                    &&& w.meta_path@ == joined(self.spec_dir(), "meta.json"@)
                    &&& w.meta.schema_version@ == "v1"@
                    &&& w.meta.ffs_version@ == version@
                    &&& w.meta.git_head == head
                    &&& w.meta.file_count == file_count
                    &&& w.meta.generated_at_ms == now_ms
                    &&& forall|files_now: int| #[trigger]
                        within_tolerance(files_now, file_count as int) ==> symbol_payload(
                            Some(w.meta),
                            maybe(head),
                            files_now,
                            Some(w.payload.bytes),
                        ) == Some(payload@)
                },
                Err(e) => zstd_refusal(payload@, ZSTD_LEVEL) == Some(e.detail@),
            },
    {
        let encoded = zstd_encode(payload, ZSTD_LEVEL);
        self.symbol_files(encoded, head, file_count, version, now_ms)
    }
}

/// A symbol index that can be used as it is can also be brought up to date, and
/// holds the same.
pub proof fn law_fresh_is_stale(
    meta: Option<CacheMeta>,
    head: Option<Seq<char>>,
    files_now: int,
    file: Option<Vec<u8>>,
)
    ensures
        symbol_payload(meta, head, files_now, file) is Some ==> stale_payload(meta, file)
            == symbol_payload(meta, head, files_now, file),
{
}

/// A number of files that has not moved is always near enough, and whether one
/// is near enough depends on how far it has moved, not on which way.
pub proof fn law_tolerance(expected: int, drift: int)
    requires
        0 <= drift <= expected,
    ensures
        within_tolerance(expected, expected),
        within_tolerance(expected - drift, expected) == within_tolerance(
            expected + drift,
            expected,
        ),
{
}

/// How to come by an engine.
#[derive(Debug)]
pub enum EnginePlan {
    /// From the cached symbol index.
    Reuse { payload: Vec<u8> },
    /// From the cached symbol index, once it is brought up to date; then write
    /// the cache.
    Refresh { payload: Vec<u8> },
    /// From scratch; then write the cache.
    Rebuild,
}

/// How to come by an engine: from the cache where it can be used, else from
/// what can be brought up to date, else from scratch.
pub fn load_or_build_engine(
    cache: &CacheDir,
    meta: &Option<CacheMeta>,
    head: &Option<String>,
    files_now: usize,
    file: &Option<Vec<u8>>,
) -> (res: EnginePlan)
    ensures
        match res {
            EnginePlan::Reuse { payload } => symbol_payload(
                *meta,
                maybe(*head),
                files_now as int,
                *file,
            ) == Some(payload@),
            EnginePlan::Refresh { payload } => {
                &&& symbol_payload(*meta, maybe(*head), files_now as int, *file) is None
                &&& stale_payload(*meta, *file) == Some(payload@)
            },
            EnginePlan::Rebuild => {
                &&& symbol_payload(*meta, maybe(*head), files_now as int, *file) is None
                &&& stale_payload(*meta, *file) is None
            },
        },
{
    match cache.load_symbol_index(meta, head, files_now, file) {
        Some(payload) => EnginePlan::Reuse { payload },
        None => match cache.load_symbol_index_stale(meta, file) {
            Some(payload) => EnginePlan::Refresh { payload },
            None => EnginePlan::Rebuild,
        },
    }
}

/// The prefix of a head that names a reference.
pub open spec fn ref_prefix() -> Seq<char> {
    "ref: "@
}

/// The path of the file with the commit of a head that names a reference, if
/// it names one.
pub open spec fn ref_file(root: Seq<char>, head: Seq<char>) -> Option<Seq<char>> {
    let text = trimmed(head, None);
    if begins_with(text, ref_prefix()) {
        Some(joined(joined(root, ".git"@), text.skip(ref_prefix().len() as int)))
    } else {
        None
    }
}

/// The commit that is checked out: `head` is what the file `HEAD` holds, and
/// `named` what the file of the reference holds, where `head` names one.
pub open spec fn commit(root: Seq<char>, head: Option<Seq<char>>, named: Option<Seq<char>>) -> Option<
    Seq<char>,
> {
    match head {
        None => None,
        Some(text) => if ref_file(root, text) is Some {
            match named {
                Some(id) => Some(trimmed(id, None)),
                None => None,
            }
        } else {
            Some(trimmed(text, None))
        },
    }
}

/// The path of the file that says what is checked out.
pub fn head_path(root: &str) -> (res: String)
    ensures
        res@ == joined(root@, ".git/HEAD"@),
{
    join(root, ".git/HEAD")
}

/// The path of the file with the commit, where `head` names a reference.
pub fn ref_path(root: &str, head: &str) -> (res: Option<String>)
    ensures
        match res {
            Some(path) => ref_file(root@, head@) == Some(path@),
            None => ref_file(root@, head@) is None,
        },
{
    let text = trim(head, None);
    match strip_prefix(text.as_str(), "ref: ") {
        Some(rest) => Some(join(join(root, ".git").as_str(), rest.as_str())),
        None => None,
    }
}

/// The commit that is checked out.
pub fn read_git_head(root: &str, head: &Option<String>, named: &Option<String>) -> (res: Option<
    String,
>)
    ensures
        maybe(res) == commit(root@, maybe(*head), maybe(*named)),
{
    match head {
        None => None,
        Some(text) => match ref_path(root, text.as_str()) {
            Some(_) => match named {
                Some(id) => Some(trim(id.as_str(), None)),
                None => None,
            },
            None => Some(trim(text.as_str(), None)),
        },
    }
}

/// A file on disk, next to what the index knows of it.
#[derive(Debug)]
pub struct DiskFile {
    /// Its path.
    pub path: String,
    /// When it was last modified, in nanoseconds from the epoch, and how long
    /// it is; nothing where the file system does not say.
    pub stat: Option<(i128, u64)>,
    /// The time of modification that the index has recorded.
    pub recorded: Option<i128>,
}

/// What an index needs in order to be up to date.
#[derive(Debug)]
pub struct Refresh {
    /// The paths to drop from it.
    pub stale: Vec<String>,
    /// The paths to parse again.
    pub changed: Vec<String>,
}

/// A file with that path is there.
pub open spec fn listed(files: Seq<DiskFile>, path: Seq<char>) -> bool {
    exists|i: int| 0 <= i < files.len() && (#[trigger] files[i]).path@ == path
}

/// The file has changed since it was indexed, and is none that can be parsed any
/// more: it is empty or too long.
pub open spec fn outgrown(file: DiskFile) -> bool {
    &&& file.stat matches Some((modified, len))
    &&& file.recorded != Some(modified)
    &&& !(0 < len <= MAX_FILE_BYTES)
}

/// A file with that path is there, but can be parsed no more.
pub open spec fn outgrew(files: Seq<DiskFile>, path: Seq<char>) -> bool {
    exists|i: int|
        0 <= i < files.len() && (#[trigger] files[i]).path@ == path && outgrown(files[i])
}

/// What the index knows of that path is of no use any more: there is no such
/// file, or none that can be parsed.
pub open spec fn gone(files: Seq<DiskFile>, path: Seq<char>) -> bool {
    !listed(files, path) || outgrew(files, path)
}

/// The members of `indexed` that are gone, in order.
pub open spec fn stale_of(indexed: Seq<Seq<char>>, files: Seq<DiskFile>) -> Seq<Seq<char>>
    decreases indexed.len(),
{
    if indexed.len() == 0 {
        seq![]
    } else {
        let rest = stale_of(indexed.drop_last(), files);
        if gone(files, indexed.last()) {
            rest.push(indexed.last())
        } else {
            rest
        }
    }
}

/// The file has changed since it was indexed, and is one that can be parsed:
/// neither empty nor too long.
pub open spec fn to_parse(file: DiskFile) -> bool {
    &&& file.stat matches Some((modified, len))
    &&& file.recorded != Some(modified)
    &&& 0 < len <= MAX_FILE_BYTES
}

/// The paths of the files to parse again, in order.
pub open spec fn changed_paths(files: Seq<DiskFile>) -> Seq<Seq<char>>
    decreases files.len(),
{
    if files.len() == 0 {
        seq![]
    } else {
        let rest = changed_paths(files.drop_last());
        if to_parse(files.last()) {
            rest.push(files.last().path@)
        } else {
            rest
        }
    }
}

/// Whether a file has to be parsed again.
pub fn needs_parse(file: &DiskFile) -> (res: bool)
    ensures
        res == to_parse(*file),
{
    match file.stat {
        None => false,
        Some((modified, len)) => {
            let known = match file.recorded {
                Some(at) => at == modified,
                None => false,
            };
            !known && len > 0 && len <= MAX_FILE_BYTES
        },
    }
}

/// Whether a file has to be dropped from the index.
pub fn needs_drop(file: &DiskFile) -> (res: bool)
    ensures
        res == outgrown(*file),
{
    match file.stat {
        None => false,
        Some((modified, len)) => {
            let known = match file.recorded {
                Some(at) => at == modified,
                None => false,
            };
            !known && !(len > 0 && len <= MAX_FILE_BYTES)
        },
    }
}

/// With one more file, the paths that are listed, and those that were outgrown,
/// are those from before and that of the file, if it was.
proof fn lemma_one_more(files: Seq<DiskFile>, k: int, path: Seq<char>)
    requires
        0 <= k < files.len(),
    ensures
        listed(files.take(k + 1), path) <==> listed(files.take(k), path) || files[k].path@ == path,
        outgrew(files.take(k + 1), path) <==> outgrew(files.take(k), path) || (files[k].path@
            == path && outgrown(files[k])),
{
    let (old_list, list) = (files.take(k), files.take(k + 1));
    assert(list[k] == files[k]);
    if listed(old_list, path) {
        let i = choose|i: int| 0 <= i < old_list.len() && (#[trigger] old_list[i]).path@ == path;
        assert(list[i] == old_list[i]);
    }
    if listed(list, path) {
        let i = choose|i: int| 0 <= i < list.len() && (#[trigger] list[i]).path@ == path;
        if i < k {
            assert(old_list[i] == list[i]);
        }
    }
    if outgrew(old_list, path) {
        let i = choose|i: int|
            0 <= i < old_list.len() && (#[trigger] old_list[i]).path@ == path && outgrown(
                old_list[i],
            );
        assert(list[i] == old_list[i]);
    }
    if outgrew(list, path) {
        let i = choose|i: int|
            0 <= i < list.len() && (#[trigger] list[i]).path@ == path && outgrown(list[i]);
        if i < k {
            assert(old_list[i] == list[i]);
        }
    }
}

/// The paths of `indexed` that are gone.
fn stale_paths(indexed: &Vec<String>, on_disk: &Vec<DiskFile>) -> (res: Vec<String>)
    ensures
        texts(res@) == stale_of(texts(indexed@), on_disk@),
{
    let mut there = PathTable::new();
    let mut useless = PathTable::new();
    let mut k: usize = 0;
    while k < on_disk.len()
        invariant
            k <= on_disk@.len(),
            there.wf(),
            useless.wf(),
            forall|p: Seq<char>| #[trigger]
                there@.contains_key(p) <==> listed(on_disk@.take(k as int), p),
            forall|p: Seq<char>| #[trigger]
                useless@.contains_key(p) <==> outgrew(on_disk@.take(k as int), p),
        decreases on_disk@.len() - k,
    {
        proof {
            assert forall|p: Seq<char>| #[trigger]
                listed(on_disk@.take(k + 1), p) <==> listed(on_disk@.take(k as int), p)
                    || on_disk@[k as int].path@ == p by {
                lemma_one_more(on_disk@, k as int, p);
            }
            assert forall|p: Seq<char>| #[trigger]
                outgrew(on_disk@.take(k + 1), p) <==> outgrew(on_disk@.take(k as int), p) || (
                on_disk@[k as int].path@ == p && outgrown(on_disk@[k as int])) by {
                lemma_one_more(on_disk@, k as int, p);
            }
        }
        there.insert(on_disk[k].path.as_str(), k);
        if needs_drop(&on_disk[k]) {
            useless.insert(on_disk[k].path.as_str(), k);
        }
        k = k + 1;
    }
    assert(on_disk@.take(k as int) =~= on_disk@);
    let ghost all = texts(indexed@);
    let mut res: Vec<String> = Vec::new();
    let mut i: usize = 0;
    assert(all.take(0) =~= seq![]);
    assert(texts(res@) =~= seq![]);
    while i < indexed.len()
        invariant
            i <= indexed@.len(),
            all == texts(indexed@),
            there.wf(),
            useless.wf(),
            forall|p: Seq<char>| #[trigger] there@.contains_key(p) <==> listed(on_disk@, p),
            forall|p: Seq<char>| #[trigger] useless@.contains_key(p) <==> outgrew(on_disk@, p),
            texts(res@) == stale_of(all.take(i as int), on_disk@),
        decreases indexed@.len() - i,
    {
        assert(all.take(i + 1).drop_last() =~= all.take(i as int));
        assert(all.take(i + 1).last() == indexed@[i as int]@);
        let ghost before = res@;
        let path = indexed[i].as_str();
        if there.get(path).is_none() || useless.get(path).is_some() {
            res.push(indexed[i].clone());
            assert(texts(res@) =~= texts(before).push(indexed@[i as int]@));
        }
        i = i + 1;
    }
    assert(all.take(i as int) =~= all);
    res
}

/// What an index needs in order to be up to date: to lose the files that are
/// gone or can be parsed no more, and to have those that changed parsed again. A
/// file that has not changed since it was indexed is left alone.
pub fn refresh_symbol_index(indexed: &Vec<String>, on_disk: &Vec<DiskFile>) -> (res: Refresh)
    ensures
        texts(res.stale@) == stale_of(texts(indexed@), on_disk@),
        texts(res.changed@) == changed_paths(on_disk@),
{
    let stale = stale_paths(indexed, on_disk);
    let mut changed: Vec<String> = Vec::new();
    let mut i: usize = 0;
    assert(on_disk@.take(0) =~= seq![]);
    assert(texts(changed@) =~= seq![]);
    while i < on_disk.len()
        invariant
            i <= on_disk@.len(),
            texts(changed@) == changed_paths(on_disk@.take(i as int)),
        decreases on_disk@.len() - i,
    {
        assert(on_disk@.take(i + 1).drop_last() =~= on_disk@.take(i as int));
        let ghost before = changed@;
        if needs_parse(&on_disk[i]) {
            changed.push(on_disk[i].path.clone());
            assert(texts(changed@) =~= texts(before).push(on_disk@[i as int].path@));
        }
        i = i + 1;
    }
    assert(on_disk@.take(i as int) =~= on_disk@);
    Refresh { stale, changed }
}

/// A refresh parses a file again if and only if it has changed since it was
/// indexed and can be parsed: one that has not changed is left alone.
pub proof fn law_refresh_parses_what_changed(files: Seq<DiskFile>, path: Seq<char>)
    ensures
        changed_paths(files).contains(path) <==> exists|i: int|
            0 <= i < files.len() && to_parse(#[trigger] files[i]) && files[i].path@ == path,
    decreases files.len(),
{
    if files.len() > 0 {
        let front = files.drop_last();
        let rest = changed_paths(front);
        let all = changed_paths(files);
        law_refresh_parses_what_changed(front, path);
        if all.contains(path) {
            let k = all.index_of(path);
            if k < rest.len() {
                assert(rest[k] == path);
                let i = choose|i: int|
                    0 <= i < front.len() && to_parse(#[trigger] front[i]) && front[i].path@ == path;
                assert(files[i] == front[i]);
            } else {
                assert(to_parse(files[files.len() - 1]));
            }
        }
        if exists|i: int|
            0 <= i < files.len() && to_parse(#[trigger] files[i]) && files[i].path@ == path {
            let i = choose|i: int|
                0 <= i < files.len() && to_parse(#[trigger] files[i]) && files[i].path@ == path;
            if i < front.len() {
                assert(front[i] == files[i]);
                assert(all[rest.index_of(path)] == path);
            } else {
                assert(all[rest.len() as int] == path);
            }
        }
    }
}

/// After a refresh the index lists only files that are there and can be parsed,
/// as far as it has not seen them as they are: a path is dropped if and only if it
/// is indexed and gone.
pub proof fn law_refresh_drops_what_is_gone(
    indexed: Seq<Seq<char>>,
    files: Seq<DiskFile>,
    path: Seq<char>,
)
    ensures
        stale_of(indexed, files).contains(path) <==> indexed.contains(path) && gone(files, path),
    decreases indexed.len(),
{
    if indexed.len() > 0 {
        let front = indexed.drop_last();
        let rest = stale_of(front, files);
        let all = stale_of(indexed, files);
        law_refresh_drops_what_is_gone(front, files, path);
        if all.contains(path) {
            let k = all.index_of(path);
            if k < rest.len() {
                assert(rest[k] == path);
                assert(indexed[front.index_of(path)] == path);
            } else {
                assert(indexed[indexed.len() - 1] == path);
            }
        }
        if indexed.contains(path) && gone(files, path) {
            let k = indexed.index_of(path);
            if k < front.len() {
                assert(front[k] == path);
                assert(all[rest.index_of(path)] == path);
            } else {
                assert(all[rest.len() as int] == path);
            }
        }
    }
}

/// A refresh passes over no change: an indexed file whose time of modification is
/// not the recorded one is dropped or parsed again.
pub proof fn law_refresh_misses_no_change(
    indexed: Seq<Seq<char>>,
    files: Seq<DiskFile>,
    i: int,
)
    requires
        0 <= i < files.len(),
        indexed.contains(files[i].path@),
        files[i].stat matches Some((modified, _)) && files[i].recorded != Some(modified),
    ensures
        stale_of(indexed, files).contains(files[i].path@) || changed_paths(files).contains(
            files[i].path@,
        ),
{
    law_refresh_drops_what_is_gone(indexed, files, files[i].path@);
    law_refresh_parses_what_changed(files, files[i].path@);
}

/// A cache is taken to be of the same files as long as their number is off by ten at
/// most, or by one in twenty of what was recorded.
pub proof fn law_tolerated_drift(now: int, expected: int)
    requires
        0 <= now,
        0 <= expected,
    ensures
        now <= expected ==> within_tolerance(now, expected) == (expected - now <= 10 || (expected
            - now) * 20 <= expected),
        now >= expected ==> within_tolerance(now, expected) == (now - expected <= 10 || (now
            - expected) * 20 <= expected),
{
}

/// The recorded symbols are used again if and only if they were recorded in the
/// first layout, for the commit that is checked out, and for about as many files as
/// there are now. What the file holds is then what comes out. Where only the layout
/// fits, the same symbols are there to be refreshed.
pub proof fn law_cache_is_used(
    meta: CacheMeta,
    head: Option<Seq<char>>,
    files_now: int,
    file: Vec<u8>,
)
    ensures
        ({
            let content = zstd_content(file@);
            let layout = meta.schema_version@ == "v1"@;
            let same_commit = match (meta.git_head, head) {
                (Some(a), Some(b)) => a@ == b,
                (None, None) => true,
                _ => false,
            };
            let similar = within_tolerance(files_now, meta.file_count as int);
            &&& layout && same_commit && similar ==> symbol_payload(
                Some(meta),
                head,
                files_now,
                Some(file),
            ) == content
            &&& !(layout && same_commit && similar) ==> symbol_payload(
                Some(meta),
                head,
                files_now,
                Some(file),
            ) is None
            &&& layout ==> stale_payload(Some(meta), Some(file)) == content
            &&& !layout ==> stale_payload(Some(meta), Some(file)) is None
            &&& layout && same_commit && meta.file_count >= 2000 ==> bigram_payload(
                Some(meta),
                head,
                Some(file),
            ) == content
            &&& !(layout && same_commit && meta.file_count >= 2000) ==> bigram_payload(
                Some(meta),
                head,
                Some(file),
            ) is None
        }),
        symbol_payload(None, head, files_now, Some(file)) is None,
        stale_payload(None, Some(file)) is None,
        bigram_payload(None, head, Some(file)) is None,
        symbol_payload(Some(meta), head, files_now, None) is None,
        stale_payload(Some(meta), None) is None,
        bigram_payload(Some(meta), head, None) is None,
{
}

/// What a refresh does with a file that is still there: nothing if its time of
/// change is the recorded one or cannot be told. Else it is parsed again if it has
/// one byte to four MiB, and dropped if it has not.
pub proof fn law_refresh_of_one_file(indexed: Seq<Seq<char>>, files: Seq<DiskFile>, i: int)
    requires
        0 <= i < files.len(),
        forall|j: int| 0 <= j < files.len() && j != i ==> (#[trigger] files[j]).path@ != files[i].path@,
        indexed.contains(files[i].path@),
    ensures
        ({
            let parsed = changed_paths(files).contains(files[i].path@);
            let dropped = stale_of(indexed, files).contains(files[i].path@);
            match files[i].stat {
                None => !parsed && !dropped,
                Some((modified, len)) => {
                    &&& files[i].recorded == Some(modified) ==> !parsed && !dropped
                    &&& files[i].recorded != Some(modified) && 1 <= len <= 4194304 ==> parsed
                        && !dropped
                    &&& files[i].recorded != Some(modified) && (len == 0 || len > 4194304)
                        ==> dropped && !parsed
                },
            }
        }),
{
    let path = files[i].path@;
    law_refresh_parses_what_changed(files, path);
    law_refresh_drops_what_is_gone(indexed, files, path);
    assert(listed(files, path));
    if to_parse(files[i]) {
        assert(changed_paths(files).contains(path));
    }
    if outgrown(files[i]) {
        assert(outgrew(files, path));
    }
    if outgrew(files, path) {
        let j = choose|j: int|
            0 <= j < files.len() && (#[trigger] files[j]).path@ == path && outgrown(files[j]);
        assert(j == i);
    }
}

/// A file that is not there any more is dropped.
pub proof fn law_missing_files_are_dropped(
    indexed: Seq<Seq<char>>,
    files: Seq<DiskFile>,
    path: Seq<char>,
)
    requires
        indexed.contains(path),
        forall|j: int| 0 <= j < files.len() ==> (#[trigger] files[j]).path@ != path,
    ensures
        stale_of(indexed, files).contains(path),
        !changed_paths(files).contains(path),
{
    law_refresh_parses_what_changed(files, path);
    law_refresh_drops_what_is_gone(indexed, files, path);
}

/// What `.git/HEAD` says: either the name of a file below `.git` that has the commit,
/// behind `ref: `, or the commit itself. White space around either is left aside.
pub proof fn law_head_names_the_commit(
    root: Seq<char>,
    name: Seq<char>,
    front: Seq<char>,
    back: Seq<char>,
    named: Option<Seq<char>>,
)
    requires
        name.len() > 0,
        !whitespace(name[0]),
        !whitespace(name.last()),
        forall|k: int| 0 <= k < front.len() ==> whitespace(#[trigger] front[k]),
        forall|k: int| 0 <= k < back.len() ==> whitespace(#[trigger] back[k]),
    ensures
        ref_file(root, front + ("ref: "@ + name) + back) == Some(
            joined(joined(root, ".git"@), name),
        ),
        commit(root, Some(front + ("ref: "@ + name) + back), Some(front + name + back)) == Some(name),
        commit(root, Some(front + ("ref: "@ + name) + back), None) is None,
        !begins_with(name, "ref: "@) ==> ref_file(root, front + name + back) is None && commit(
            root,
            Some(front + name + back),
            named,
        ) == Some(name),
        commit(root, None, named) is None,
{
    reveal_strlit("ref: ");
    let long = "ref: "@ + name;
    assert(long[0] == 'r');
    assert(long.last() == name.last());
    law_trims(front, long, back, None);
    law_trims(front, name, back, None);
    assert(long.take(5) =~= "ref: "@);
    assert(long.skip(5) =~= name);
}

} // verus!
