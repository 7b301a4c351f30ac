//! The analysis of single files, and how its outcomes are gathered.

use crate::ast::engine::{describes, describes_all, functions_of};
use crate::ast::parser::{nodes_of, refusal, AstParser};
use crate::cache::{AnalysisCache, FileCacheEntry, GitCacheEntry};
use crate::digest::{digest_of, stable_content_hash};
use crate::error::UchikomiError;
use crate::git::churn::{
    apply_git_metrics_to_functions, has_churn, has_history, have_churn, is_range_churn,
};
use crate::metrics::{
    copy_functions, same_function, same_functions, AnalysisWarning, ChurnMetrics, FunctionMetrics,
    SkippedFile,
};
use crate::path::{path_below, strip_base};
use crate::registry::{grammar_at, rules_of, LanguageRegistry};
use crate::score::Score;
use crate::table::TextMap;
use crate::text::{joined, joined3};
use vstd::prelude::*;
use vstd::string::StringSliceAdditionalSpecFns;
use vstd::utf8::{decode_utf8, valid_utf8};

verus! {

/// What std says of bytes that are not UTF-8.
pub uninterp spec fn encoding_error(bytes: Seq<u8>) -> Seq<char>;

/// `std::str::from_utf8`: it succeeds exactly on valid UTF-8, and the text it gives
/// has the bytes that it was given. Otherwise the text of the error depends on the
/// bytes alone.
#[verifier::external_body]
fn read_utf8(v: &[u8]) -> (r: Result<&str, String>)
    ensures
        match r {
            Ok(s) => valid_utf8(v@) && s.spec_bytes() == v@,
            Err(err) => !valid_utf8(v@) && err@ == encoding_error(v@),
        },
{
    std::str::from_utf8(v).map_err(|err| err.to_string())
}

/// How often the cache could be used for a file.
#[derive(Clone, Copy, Debug, PartialEq, Eq, Structural)]
pub struct CacheStats {
    pub hits: usize,
    pub misses: usize,
}

/// What came of one file.
pub struct WorkerOutput {
    pub functions: Vec<FunctionMetrics>,
    pub cache_entry: Option<(String, FileCacheEntry)>,
    pub active_path: Option<String>,
    pub cache_hit: usize,
    pub cache_miss: usize,
    pub warnings: Vec<AnalysisWarning>,
    pub skipped_files: Vec<SkippedFile>,
}

impl WorkerOutput {
    /// Whether nothing came of a file but warnings.
    pub open spec fn is_bare(self) -> bool {
        &&& self.functions@.len() == 0
        &&& self.cache_entry is None
        &&& self.active_path is None
        &&& self.cache_hit == 0
        &&& self.cache_miss == 0
        &&& self.skipped_files@.len() == 0
    }

    /// Whether nothing came of a file but this warning.
    pub open spec fn warns(self, code: Seq<char>, message: Seq<char>) -> bool {
        &&& self.is_bare()
        &&& self.warnings@.len() == 1
        &&& self.warnings@[0].code@ == code
        &&& self.warnings@[0].message@ == message
    }

    /// Nothing.
    pub fn empty() -> (output: WorkerOutput)
        ensures
            output.is_bare(),
            output.warnings@.len() == 0,
    {
        WorkerOutput {
            functions: Vec::new(),
            cache_entry: None,
            active_path: None,
            cache_hit: 0,
            cache_miss: 0,
            warnings: Vec::new(),
            skipped_files: Vec::new(),
        }
    }

    /// Nothing but a warning.
    fn warning(code: &str, message: String) -> (output: WorkerOutput)
        ensures
            output.warns(code@, message@),
    {
        let mut output = WorkerOutput::empty();
        output.warnings.push(AnalysisWarning { code: code.to_string(), message });
        output
    }
}

/// What came of a directory entry that could not be read.
pub fn walk_entry_failed_output(err: &str) -> (output: WorkerOutput)
    ensures
        output.warns("walk_entry_failed"@, "Failed to read directory entry: "@ + err@),
{
    WorkerOutput::warning("walk_entry_failed", joined("Failed to read directory entry: ", err))
}

/// The message for a path that does not lie in the repository.
pub open spec fn stray_path_message(path: Seq<char>) -> Seq<char> {
    "Failed to strip prefix for "@ + path + ": prefix not found"@
}

/// The path of a file in the repository.
pub fn relative_path_string(path: &str, repo_path_abs: &str) -> (r: Result<String, WorkerOutput>)
    ensures
        match r {
            Ok(below) => path_below(path@, repo_path_abs@) == Some(below@),
            Err(output) => path_below(path@, repo_path_abs@) is None && output.warns(
                "path_error"@,
                stray_path_message(path@),
            ),
        },
{
    match strip_base(path, repo_path_abs) {
        Some(below) => Ok(below),
        None => Err(
            WorkerOutput::warning(
                "path_error",
                joined3("Failed to strip prefix for ", path, ": prefix not found"),
            ),
        ),
    }
}

/// An entry of a directory.
pub struct WalkEntry {
    pub path: String,
    pub is_file: bool,
}

/// Whether this is what to do with an entry: analyze it under its path in the
/// repository, tell of an error, or nothing.
pub open spec fn is_selection(
    r: Option<Result<String, WorkerOutput>>,
    entry: WalkEntry,
    repo_path_abs: Seq<char>,
) -> bool {
    let below = path_below(entry.path@, repo_path_abs);
    match r {
        Some(Ok(path)) => entry.is_file && below == Some(path@) && grammar_at(path@) is Some,
        Some(Err(output)) => entry.is_file && below is None && output.warns(
            "path_error"@,
            stray_path_message(entry.path@),
        ),
        None => !entry.is_file || (below is Some && grammar_at(below->0) is None),
    }
}

/// The path in the repository of a file in a supported language.
pub fn supported_relative_path(
    entry: &WalkEntry,
    repo_path_abs: &str,
    registry: &LanguageRegistry,
) -> (r: Option<Result<String, WorkerOutput>>)
    ensures
        is_selection(r, *entry, repo_path_abs@),
{
    if !entry.is_file {
        return None;
    }
    match relative_path_string(entry.path.as_str(), repo_path_abs) {
        Ok(path) => {
            if registry.get_support(path.as_str()).is_some() {
                Some(Ok(path))
            } else {
                None
            }
        },
        Err(output) => Some(Err(output)),
    }
}

/// What to do with what the walk over the repository found. Once a shutdown is
/// asked for nothing more is done.
pub fn prepare_walk_entry(
    entry: Result<WalkEntry, String>,
    shutdown: bool,
    repo_path_abs: &str,
    registry: &LanguageRegistry,
) -> (r: Option<Result<String, WorkerOutput>>)
    ensures
        if shutdown {
            r is None
        } else {
            match entry {
                Ok(e) => is_selection(r, e, repo_path_abs@),
                Err(text) => match r {
                    Some(Err(output)) => output.warns(
                        "walk_entry_failed"@,
                        "Failed to read directory entry: "@ + text@,
                    ),
                    _ => false,
                },
            }
        },
{
    if shutdown {
        return None;
    }
    match entry {
        Ok(e) => supported_relative_path(&e, repo_path_abs, registry),
        Err(text) => Some(Err(walk_entry_failed_output(text.as_str()))),
    }
}

/// Whether these are the functions of a file, by its content alone.
pub open spec fn are_functions_of(
    list: Seq<FunctionMetrics>,
    source: Seq<u8>,
    path: Seq<char>,
) -> bool {
    match grammar_at(path) {
        Some(grammar) => {
            let parsed = nodes_of(grammar, decode_utf8(source));
            &&& valid_utf8(source)
            &&& refusal(parsed, rules_of(grammar), path) is None
            &&& describes_all(list, parsed->0, rules_of(grammar), decode_utf8(source), path)
        },
        None => false,
    }
}

/// Whether this is the reason why the functions of a file cannot be told.
pub open spec fn is_refused(e: UchikomiError, source: Seq<u8>, path: Seq<char>) -> bool {
    match grammar_at(path) {
        Some(grammar) => if valid_utf8(source) {
            e is ParseError && refusal(
                nodes_of(grammar, decode_utf8(source)),
                rules_of(grammar),
                path,
            ) == Some(e.cause())
        } else {
            e is Other && e.cause() == encoding_error(source)
        },
        None => e is Other && e.cause() == "Unsupported language for "@ + path,
    }
}

/// Whether this is the outcome of analyzing a file by its content alone.
pub open spec fn is_file_analysis(
    r: Result<Vec<FunctionMetrics>, UchikomiError>,
    source: Seq<u8>,
    path: Seq<char>,
) -> bool {
    match r {
        Ok(list) => are_functions_of(list@, source, path),
        Err(e) => is_refused(e, source, path),
    }
}

/// The analysis of single files.
pub struct AnalysisWorker;

impl AnalysisWorker {
    /// Analyzes a file by its content.
    pub fn process_file_from_source(
        source: &[u8],
        rel_path_str: &str,
        registry: &LanguageRegistry,
    ) -> (r: Result<Vec<FunctionMetrics>, UchikomiError>)
        ensures
            is_file_analysis(r, source@, rel_path_str@),
    {
        let support = match registry.get_support(rel_path_str) {
            Some(support) => support,
            None => {
                return Err(
                    UchikomiError::Other(joined("Unsupported language for ", rel_path_str)),
                );
            },
        };
        match read_utf8(source) {
            Ok(text) => {
                proof {
                    vstd::utf8::encode_utf8_decode_utf8(text@);
                }
                AstParser::analyze_source(text, rel_path_str, support)
            },
            Err(err) => Err(UchikomiError::Other(err)),
        }
    }
}

/// Whether the cache holds the functions of a file with a content.
pub open spec fn is_cached(
    files: Map<Seq<char>, FileCacheEntry>,
    path: Seq<char>,
    source: Seq<u8>,
) -> bool {
    files.contains_key(path) && files[path].content_hash@ == digest_of(source)
}

/// Whether these functions are found in a file: those that the cache holds, or
/// else those that its analysis tells of.
pub open spec fn are_found(
    found: Seq<FunctionMetrics>,
    files: Map<Seq<char>, FileCacheEntry>,
    path: Seq<char>,
    source: Seq<u8>,
) -> bool {
    if is_cached(files, path, source) {
        same_functions(found, files[path].functions@)
    } else {
        are_functions_of(found, source, path)
    }
}

/// Whether a file is told as left out.
pub open spec fn is_skipped(output: WorkerOutput, path: Seq<char>, reason: Seq<char>) -> bool {
    &&& output.skipped_files@.len() == 1
    &&& output.skipped_files@[0].path@ == path
    &&& output.skipped_files@[0].reason@ == reason
    &&& output.functions@.len() == 0
    &&& output.cache_entry is None
}

/// The functions that the cache holds of a file, or else those that its analysis
/// tells of.
fn cached_or_analyzed_functions(
    cache: &AnalysisCache,
    rel_path_str: &str,
    source_bytes: &[u8],
    content_hash: &str,
    registry: &LanguageRegistry,
    output: &mut WorkerOutput,
) -> (functions: Option<Vec<FunctionMetrics>>)
    requires
        content_hash@ == digest_of(source_bytes@),
        old(output).skipped_files@.len() == 0,
        old(output).functions@.len() == 0,
        old(output).cache_entry is None,
        old(output).cache_hit == 0,
        old(output).cache_miss == 0,
    ensures
        final(output).functions == old(output).functions,
        final(output).active_path == old(output).active_path,
        final(output).warnings == old(output).warnings,
        final(output).cache_entry == old(output).cache_entry,
        is_cached(cache.files@, rel_path_str@, source_bytes@) ==> functions is Some
            && final(output).cache_hit == 1 && final(output).cache_miss == 0,
        !is_cached(cache.files@, rel_path_str@, source_bytes@) ==> final(output).cache_hit == 0
            && final(output).cache_miss == 1,
        match functions {
            Some(found) => are_found(found@, cache.files@, rel_path_str@, source_bytes@)
                && final(output).skipped_files == old(output).skipped_files,
            None => exists|e: UchikomiError| #[trigger]
                is_refused(e, source_bytes@, rel_path_str@) && is_skipped(
                    *final(output),
                    rel_path_str@,
                    "failed to analyze file: "@ + e.cause(),
                ),
        },
{
    if let Some(entry) = cache.files.get(rel_path_str) {
        if entry.content_hash.as_str().eq(content_hash) {
            output.cache_hit = 1;
            return Some(copy_functions(&entry.functions));
        }
    }
    output.cache_miss = 1;
    let r = AnalysisWorker::process_file_from_source(source_bytes, rel_path_str, registry);
    match r {
        Ok(functions) => Some(functions),
        Err(err) => {
            let ghost error = err;
            let cause = err.into_cause();
            output.skipped_files.push(
                SkippedFile {
                    path: rel_path_str.to_string(),
                    reason: joined("failed to analyze file: ", cause.as_str()),
                },
            );
            assert(is_refused(error, source_bytes@, rel_path_str@));
            None
        },
    }
}

/// Whether this is what came of a file with functions in it: they are told with
/// their history, and kept for the next time.
pub open spec fn tells_functions<F: Fn(u128, usize) -> Score>(
    output: WorkerOutput,
    found: Seq<FunctionMetrics>,
    path: Seq<char>,
    source: Seq<u8>,
    git_cache: TextMap<GitCacheEntry>,
    include_authors: bool,
    reference: i64,
    score: F,
) -> bool {
    &&& have_churn(
        output.functions@,
        found,
        git_cache,
        path,
        include_authors,
        reference,
        score,
    )
    &&& output.skipped_files@.len() == 0
    &&& match output.cache_entry {
        Some((p, entry)) => p@ == path && entry.content_hash@ == digest_of(source)
            && same_functions(entry.functions@, output.functions@),
        None => false,
    }
}

/// Whether this is what came of a file that was read, or could not be.
pub open spec fn is_file_output<F: Fn(u128, usize) -> Score>(
    output: WorkerOutput,
    read: Result<&[u8], String>,
    path: Seq<char>,
    files: Map<Seq<char>, FileCacheEntry>,
    git_cache: TextMap<GitCacheEntry>,
    include_authors: bool,
    reference: i64,
    score: F,
) -> bool {
    &&& output.active_path is Some && output.active_path->0@ == path
    &&& output.warnings@.len() == 0
    &&& match read {
        Err(text) => {
            &&& output.cache_hit == 0
            &&& output.cache_miss == 0
            &&& is_skipped(output, path, "failed to read file: "@ + text@)
        },
        Ok(source) => {
            &&& output.cache_hit == if is_cached(files, path, source@) {
                1int
            } else {
                0
            }
            &&& output.cache_miss == 1 - output.cache_hit
            &&& {
                ||| exists|found: Seq<FunctionMetrics>| #[trigger]
                    are_found(found, files, path, source@) && tells_functions(
                        output,
                        found,
                        path,
                        source@,
                        git_cache,
                        include_authors,
                        reference,
                        score,
                    )
                ||| !is_cached(files, path, source@) && exists|e: UchikomiError| #[trigger]
                    is_refused(e, source@, path) && is_skipped(
                        output,
                        path,
                        "failed to analyze file: "@ + e.cause(),
                    )
            }
        },
    }
}

/// Analyzes a file in a supported language, given its content or the reason why it
/// cannot be read.
pub fn analyze_supported_file<F: Fn(u128, usize) -> Score>(
    read: Result<&[u8], String>,
    rel_path_str: String,
    registry: &LanguageRegistry,
    cache: &AnalysisCache,
    git_cache: &TextMap<GitCacheEntry>,
    include_authors: bool,
    reference: i64,
    score: &F,
) -> (output: WorkerOutput)
    requires
        forall|weight: u128, authors: usize| call_requires(score, (weight, authors)),
    ensures
        is_file_output(
            output,
            read,
            rel_path_str@,
            cache.files@,
            *git_cache,
            include_authors,
            reference,
            *score,
        ),
{
    let mut output = WorkerOutput::empty();
    output.active_path = Some(rel_path_str.clone());
    let source = match read {
        Ok(source) => source,
        Err(text) => {
            output.skipped_files.push(
                SkippedFile {
                    path: rel_path_str,
                    reason: joined("failed to read file: ", text.as_str()),
                },
            );
            return output;
        },
    };
    let content_hash = stable_content_hash(source);
    let found = cached_or_analyzed_functions(
        cache,
        rel_path_str.as_str(),
        source,
        content_hash.as_str(),
        registry,
        &mut output,
    );
    match found {
        Some(mut functions) => {
            let ghost before = functions@;
            assert(are_found(before, cache.files@, rel_path_str@, source@));
            apply_git_metrics_to_functions(
                &mut functions,
                git_cache,
                rel_path_str.as_str(),
                include_authors,
                reference,
                score,
            );
            let kept = copy_functions(&functions);
            output.cache_entry = Some(
                (rel_path_str, FileCacheEntry { content_hash, functions: kept }),
            );
            output.functions = functions;
            output
        },
        None => output,
    }
}

/// The functions of a later run with what an earlier one told of their history.
spec fn with_history_of(
    later: Seq<FunctionMetrics>,
    earlier: Seq<FunctionMetrics>,
) -> Seq<FunctionMetrics> {
    Seq::new(
        later.len(),
        |i: int|
            FunctionMetrics {
                times_modified: earlier[i].times_modified,
                bug_fix_commits: earlier[i].bug_fix_commits,
                authors_count: earlier[i].authors_count,
                authors: earlier[i].authors,
                churn: earlier[i].churn,
                churn_score: earlier[i].churn_score,
                file: earlier[i].file,
                ..later[i]
            },
    )
}

/// A file that is taken from the cache is told as if it were analyzed anew, though
/// the history may have grown in between: all but the count of hits and misses is
/// the same. A file that had a history in the first run and has none in the second
/// is left out.
pub proof fn lemma_cached_file_is_told_alike<F: Fn(u128, usize) -> Score>(
    source: &[u8],
    path: Seq<char>,
    first: WorkerOutput,
    files_before: Map<Seq<char>, FileCacheEntry>,
    git_before: TextMap<GitCacheEntry>,
    authors_before: bool,
    reference_before: i64,
    second: WorkerOutput,
    files: Map<Seq<char>, FileCacheEntry>,
    git_cache: TextMap<GitCacheEntry>,
    include_authors: bool,
    reference: i64,
    score: F,
)
    requires
        is_file_output(
            first,
            Ok(source),
            path,
            files_before,
            git_before,
            authors_before,
            reference_before,
            score,
        ),
        !is_cached(files_before, path, source@),
        first.cache_entry is Some,
        files.contains_key(path),
        files[path] == (first.cache_entry->0).1,
        is_file_output(
            second,
            Ok(source),
            path,
            files,
            git_cache,
            include_authors,
            reference,
            score,
        ),
        git_cache@.contains_key(path) || !git_before@.contains_key(path),
    ensures
        second.cache_hit == 1,
        is_file_output(
            (WorkerOutput { cache_hit: 0, cache_miss: 1, ..second }),
            Ok(source),
            path,
            Map::empty(),
            git_cache,
            include_authors,
            reference,
            score,
        ),
{
    let found1 = choose|found: Seq<FunctionMetrics>| #[trigger]
        are_found(found, files_before, path, source@) && tells_functions(
            first,
            found,
            path,
            source@,
            git_before,
            authors_before,
            reference_before,
            score,
        );
    assert(are_found(found1, files_before, path, source@));
    let kept = files[path].functions@;
    assert(is_cached(files, path, source@));
    let found2 = choose|found: Seq<FunctionMetrics>| #[trigger]
        are_found(found, files, path, source@) && tells_functions(
            second,
            found,
            path,
            source@,
            git_cache,
            include_authors,
            reference,
            score,
        );
    assert(same_functions(found2, kept));
    assert(same_functions(kept, first.functions@));
    let told = second.functions@;
    assert(first.functions@.len() == found1.len());
    assert(told.len() == found2.len());
    let fresh = if git_cache@.contains_key(path) {
        with_history_of(told, found1)
    } else {
        found2
    };
    assert(are_functions_of(fresh, source@, path)) by {
        let grammar = grammar_at(path)->0;
        let text = decode_utf8(source@);
        let t = nodes_of(grammar, text)->0;
        let rules = rules_of(grammar);
        assert forall|k: int| 0 <= k < fresh.len() implies describes(
            #[trigger] fresh[k],
            t,
            rules,
            functions_of(t, rules)[k],
            text,
            path,
        ) by {
            let a = found1[k];
            let b = first.functions@[k];
            let c = kept[k];
            let d = found2[k];
            let e = told[k];
            assert(describes(a, t, rules, functions_of(t, rules)[k], text, path));
            assert(same_function(c, b));
            assert(same_function(d, c));
            assert(b.coupling == a.coupling);
            assert(e.coupling == d.coupling);
        }
    }
    if git_cache@.contains_key(path) {
        assert forall|i: int| 0 <= i < told.len() implies has_history(
            #[trigger] told[i],
            fresh[i],
            git_cache@[path],
            path,
            include_authors,
            reference,
            score,
        ) by {
            let churn = choose|churn: ChurnMetrics|
                is_range_churn(
                    churn,
                    git_cache@[path],
                    found2[i].line,
                    found2[i].end_line,
                    reference,
                    score,
                ) && #[trigger] has_churn(told[i], found2[i], churn, path, include_authors);
            assert(has_churn(told[i], fresh[i], churn, path, include_authors));
        }
    }
    let bare = WorkerOutput { cache_hit: 0, cache_miss: 1, ..second };
    let none = Map::<Seq<char>, FileCacheEntry>::empty();
    assert(!is_cached(none, path, source@));
    assert(are_found(fresh, none, path, source@));
    assert(tells_functions(
        bare,
        fresh,
        path,
        source@,
        git_cache,
        include_authors,
        reference,
        score,
    ));
}

} // verus!
