//! What is kept from one analysis to the next.

use crate::error::UchikomiError;
use crate::metrics::FunctionMetrics;
use crate::path::{join_path, path_under};
use crate::table::{TextMap, TextSet};
use vstd::prelude::*;

verus! {

/// The version of the cache format.
pub const CACHE_VERSION: u32 = 2;

/// The version of the way in which history is counted.
pub const GIT_ALGORITHM_VERSION: u32 = 2;

/// One change to a range of lines.
#[derive(Debug)]
pub struct LineChange {
    pub commit: String,
    pub start_line: u32,
    pub end_line: u32,
    pub is_bug_fix: bool,
    pub author: String,
    /// When the change was committed, in seconds since 1970.
    pub timestamp: i64,
}

impl LineChange {
    /// A copy.
    pub fn copy(&self) -> (r: LineChange)
        ensures
            r == *self,
    {
        LineChange {
            commit: self.commit.clone(),
            start_line: self.start_line,
            end_line: self.end_line,
            is_bug_fix: self.is_bug_fix,
            author: self.author.clone(),
            timestamp: self.timestamp,
        }
    }
}

/// The history of one file.
pub struct GitCacheEntry {
    pub times_modified: usize,
    pub bug_fix_commits: usize,
    pub authors: TextSet,
    pub line_changes: Vec<LineChange>,
}

/// What the history of a file says.
#[verifier::ext_equal]
pub struct FileHistory {
    pub times_modified: nat,
    pub bug_fix_commits: nat,
    pub authors: Set<Seq<char>>,
    pub line_changes: Seq<LineChange>,
}

impl View for GitCacheEntry {
    type V = FileHistory;

    open spec fn view(&self) -> FileHistory {
        FileHistory {
            times_modified: self.times_modified as nat,
            bug_fix_commits: self.bug_fix_commits as nat,
            authors: self.authors@,
            line_changes: self.line_changes@,
        }
    }
}

impl FileHistory {
    /// The history of a file that was never changed.
    pub open spec fn empty() -> FileHistory {
        FileHistory {
            times_modified: 0,
            bug_fix_commits: 0,
            authors: Set::empty(),
            line_changes: Seq::empty(),
        }
    }
}

impl GitCacheEntry {
    /// The history of a file that was never changed.
    pub fn empty() -> (entry: GitCacheEntry)
        ensures
            entry@ == FileHistory::empty(),
    {
        GitCacheEntry {
            times_modified: 0,
            bug_fix_commits: 0,
            authors: TextSet::new(),
            line_changes: Vec::new(),
        }
    }

    /// A copy.
    pub fn copy(&self) -> (entry: GitCacheEntry)
        ensures
            entry@ == self@,
    {
        let mut line_changes: Vec<LineChange> = Vec::new();
        for i in 0..self.line_changes.len()
            invariant
                line_changes@ == self.line_changes@.take(i as int),
        {
            line_changes.push(self.line_changes[i].copy());
        }
        assert(line_changes@ == self.line_changes@);
        GitCacheEntry {
            times_modified: self.times_modified,
            bug_fix_commits: self.bug_fix_commits,
            authors: self.authors.copy(),
            line_changes,
        }
    }
}

/// Under which circumstances a history was counted.
#[derive(Debug)]
pub struct GitCacheMetadata {
    pub repository_path: String,
    pub branch: String,
    pub head_oid: String,
    pub algorithm_version: u32,
    pub bug_fix_patterns_hash: String,
}

/// The functions of a file with a content.
pub struct FileCacheEntry {
    pub content_hash: String,
    pub functions: Vec<FunctionMetrics>,
}

/// All that is kept.
pub struct AnalysisCache {
    pub files: TextMap<FileCacheEntry>,
    pub git_cache: TextMap<GitCacheEntry>,
    pub last_commit_oid: Option<String>,
    pub git_metadata: Option<GitCacheMetadata>,
}

impl AnalysisCache {
    /// Nothing.
    pub fn empty() -> (cache: AnalysisCache)
        ensures
            cache.files@ == Map::<Seq<char>, FileCacheEntry>::empty(),
            cache.files.keys() == Seq::<Seq<char>>::empty(),
            cache.git_cache@ == Map::<Seq<char>, GitCacheEntry>::empty(),
            cache.git_cache.keys() == Seq::<Seq<char>>::empty(),
            cache.last_commit_oid is None,
            cache.git_metadata is None,
    {
        AnalysisCache {
            files: TextMap::new(),
            git_cache: TextMap::new(),
            last_commit_oid: None,
            git_metadata: None,
        }
    }

    /// Whether anything is kept that an analysis can use.
    pub fn has_entries(&self) -> (r: bool)
        ensures
            r == (self.files.keys().len() > 0 || self.git_cache.keys().len() > 0
                || self.last_commit_oid is Some),
    {
        self.files.len() > 0 || self.git_cache.len() > 0 || self.last_commit_oid.is_some()
    }

    /// What to keep after an analysis at a commit.
    pub fn renewed(
        self,
        files: TextMap<FileCacheEntry>,
        git_cache: TextMap<GitCacheEntry>,
        commit_hash: &str,
    ) -> (cache: AnalysisCache)
        ensures
            cache.files == files,
            cache.git_cache == git_cache,
            match cache.last_commit_oid {
                Some(oid) => commit_hash@.len() > 0 && oid@ == commit_hash@,
                None => commit_hash@.len() == 0,
            },
            cache.git_metadata == self.git_metadata,
    {
        AnalysisCache {
            files,
            git_cache,
            last_commit_oid: if commit_hash.is_empty() {
                None
            } else {
                Some(commit_hash.to_string())
            },
            git_metadata: self.git_metadata,
        }
    }
}

/// Whether a cache holds nothing.
pub open spec fn is_empty_cache(cache: AnalysisCache) -> bool {
    &&& cache.files@ == Map::<Seq<char>, FileCacheEntry>::empty()
    &&& cache.git_cache@ == Map::<Seq<char>, GitCacheEntry>::empty()
    &&& cache.last_commit_oid is None
    &&& cache.git_metadata is None
}

/// The bytes that every cache file starts with: `CHRN`, and the version with its
/// lowest byte first.
pub open spec fn cache_header() -> Seq<u8> {
    seq![67u8, 72, 82, 78, 2, 0, 0, 0]
}

/// Whether some bytes are those of a cache file of this version.
pub open spec fn is_cache_file(bytes: Seq<u8>) -> bool {
    bytes.len() >= 8 && bytes.take(8) == cache_header()
}

/// What reading a cache file gave.
pub enum CacheRead<'b> {
    /// There is none.
    Missing,
    /// It cannot be read.
    Failed(String),
    /// Its content, and the cache behind its header as far as the content can be
    /// decoded.
    Content { bytes: &'b [u8], decoded: Result<AnalysisCache, String> },
}

/// Whether this is what is loaded: nothing where there is no file, or what the file
/// holds if it can be read, can be decoded, and is of this version.
pub open spec fn is_loaded(r: Result<AnalysisCache, UchikomiError>, read: CacheRead) -> bool {
    match read {
        CacheRead::Missing => r matches Ok(cache) && is_empty_cache(cache),
        CacheRead::Failed(text) => r matches Err(e) && e is IoError && e.cause() == text@,
        CacheRead::Content { bytes, decoded } => match decoded {
            Err(text) => r matches Err(e) && e is SerializationError && e.cause() == text@,
            Ok(cache) => if is_cache_file(bytes@) {
                r == Ok::<AnalysisCache, UchikomiError>(cache)
            } else {
                r matches Err(e) && e is CacheError && e.cause() == "Unsupported cache format"@
            },
        },
    }
}

/// Whether some bytes start with the header of a cache file of this version.
fn has_header(bytes: &[u8]) -> (r: bool)
    ensures
        r == is_cache_file(bytes@),
{
    if bytes.len() < 8 {
        return false;
    }
    let ghost head = bytes@.take(8);
    let ghost wanted = cache_header();
    let r = bytes[0] == 67 && bytes[1] == 72 && bytes[2] == 82 && bytes[3] == 78 && bytes[4] == 2
        && bytes[5] == 0 && bytes[6] == 0 && bytes[7] == 0;
    proof {
        if r {
            assert(head =~= wanted);
        } else if head == wanted {
            assert(head[0] == wanted[0] && head[1] == wanted[1] && head[2] == wanted[2] && head[3]
                == wanted[3] && head[4] == wanted[4] && head[5] == wanted[5] && head[6]
                == wanted[6] && head[7] == wanted[7]);
        }
    }
    r
}

/// Where the cache is kept, and how it is written down.
pub struct CacheManager {
    cache_path: String,
}

impl CacheManager {
    /// The path of the cache file.
    pub closed spec fn location(&self) -> Seq<char> {
        self.cache_path@
    }

    /// A manager for the cache of a repository.
    pub fn new(repo_path: &str) -> (manager: CacheManager)
        ensures
            manager.location() == path_under(path_under(repo_path@, ".uchikomi"@), "cache.bin"@),
    {
        let dir = join_path(repo_path, ".uchikomi");
        CacheManager { cache_path: join_path(dir.as_str(), "cache.bin") }
    }

    /// The path of the cache file.
    pub fn cache_path(&self) -> (path: &str)
        ensures
            path@ == self.location(),
    {
        self.cache_path.as_str()
    }

    /// The content of a cache file that holds some data.
    pub fn save(&self, data: &Vec<u8>) -> (bytes: Vec<u8>)
        ensures
            bytes@ == cache_header() + data@,
    {
        let mut bytes: Vec<u8> = Vec::new();
        bytes.push(67);
        bytes.push(72);
        bytes.push(82);
        bytes.push(78);
        bytes.push((CACHE_VERSION % 256) as u8);
        bytes.push((CACHE_VERSION / 256 % 256) as u8);
        bytes.push((CACHE_VERSION / 65536 % 256) as u8);
        bytes.push((CACHE_VERSION / 16777216) as u8);
        assert(bytes@ == cache_header());
        for i in 0..data.len()
            invariant
                bytes@ == cache_header() + data@.take(i as int),
        {
            bytes.push(data[i]);
        }
        bytes
    }

    /// What was kept, by what reading the cache file gave. That the file can be
    /// decoded counts before its version.
    pub fn load(&self, read: CacheRead) -> (r: Result<AnalysisCache, UchikomiError>)
        ensures
            is_loaded(r, read),
    {
        match read {
            CacheRead::Missing => Ok(AnalysisCache::empty()),
            CacheRead::Failed(text) => Err(UchikomiError::IoError(text)),
            CacheRead::Content { bytes, decoded } => match decoded {
                Err(text) => Err(UchikomiError::SerializationError(text)),
                Ok(cache) => if has_header(bytes) {
                    Ok(cache)
                } else {
                    Err(UchikomiError::CacheError("Unsupported cache format".to_string()))
                },
            },
        }
    }
}

/// What is loaded is what was saved: behind the header of a saved file stands the
/// data that was saved, and what it is decoded to is loaded.
pub proof fn lemma_load_gives_back_what_was_saved(
    data: Seq<u8>,
    bytes: &[u8],
    cache: AnalysisCache,
    r: Result<AnalysisCache, UchikomiError>,
)
    requires
        bytes@ == cache_header() + data,
        is_loaded(r, (CacheRead::Content { bytes, decoded: Ok(cache) })),
    ensures
        bytes@.skip(8) == data,
        r == Ok::<AnalysisCache, UchikomiError>(cache),
{
    assert(bytes@.take(8) == cache_header());
    assert(bytes@.skip(8) == data);
}

} // verus!
