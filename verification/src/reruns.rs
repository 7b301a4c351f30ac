//! The same input always gives the same report.

use crate::authors::authors_of;
use crate::cache::{AnalysisCache, FileCacheEntry, GitCacheEntry, GitCacheMetadata};
use crate::coverage::CoverageIndex;
use crate::determinism::{
    files_agree, indexes_alike, is_score_functional, lemma_analysis_is_deterministic,
    lemma_authors_same, lemma_history_is_told_alike, lemma_metrics_are_deterministic,
    measured_alike, summary_alike,
};
use crate::error::UchikomiError;
use crate::gather::{gathered, Gathered};
use crate::git::alike::{
    caches_agree, caches_alike, histories_alike, is_ordered, lemma_alike_agree,
    lemma_caches_in_step, lemma_kept_agree, lemma_kept_alike,
};
use crate::git::batch::CommitOutcome;
use crate::git::commits::GitBatchMetrics;
use crate::git::history::histories;
use crate::git::patterns::BugFixPatterns;
use crate::git::plan::GitMetricsResult;
use crate::git::told::{
    histories_agree, is_brought_up_to_date, lemma_incremental_history_is_that_of_one_walk,
};
use crate::metrics::{
    all_alike, same_function, same_functions, told_alike, AnalysisMetadata, AnalysisQuality,
    AnalysisWarning, FunctionMetrics, GitAnalysisStatus, NormalizedMetrics, Report, SkippedFile,
    Weights,
};
use crate::ranking::sort_key;
use crate::report::{
    is_draft, is_measured, is_to_be_saved, warned_of, Draft, Measured, Numbers, RepoContext,
};
use crate::score::{Ratio, Score};
use crate::scoring::{Contributions, RiskNumbers};
use crate::table::TextMap;
use crate::worker::{
    are_found, is_cached, is_file_output, is_refused, is_skipped, tells_functions, WorkerOutput,
};
use vstd::prelude::*;

verus! {

/// Whether two lists of warnings read the same.
pub open spec fn warnings_alike(a: Seq<AnalysisWarning>, b: Seq<AnalysisWarning>) -> bool {
    &&& a.len() == b.len()
    &&& forall|i: int| 0 <= i < a.len() ==> warning_alike(#[trigger] a[i], b[i])
}

/// Whether two warnings read the same.
pub open spec fn warning_alike(a: AnalysisWarning, b: AnalysisWarning) -> bool {
    a.code@ == b.code@ && a.message@ == b.message@
}

/// Whether two lists of files that were left out read the same.
pub open spec fn skips_alike(a: Seq<SkippedFile>, b: Seq<SkippedFile>) -> bool {
    &&& a.len() == b.len()
    &&& forall|i: int| 0 <= i < a.len() ==> skip_alike(#[trigger] a[i], b[i])
}

/// Whether two files that were left out read the same.
pub open spec fn skip_alike(a: SkippedFile, b: SkippedFile) -> bool {
    a.path@ == b.path@ && a.reason@ == b.reason@
}

/// Whether two optional texts read the same.
pub open spec fn texts_alike(a: Option<String>, b: Option<String>) -> bool {
    match (a, b) {
        (Some(x), Some(y)) => x@ == y@,
        (None, None) => true,
        _ => false,
    }
}

/// Whether the same is kept of two files.
pub open spec fn kept_file_alike(a: FileCacheEntry, b: FileCacheEntry) -> bool {
    a.content_hash@ == b.content_hash@ && all_alike(a.functions@, b.functions@)
}

/// Whether the same is kept of the same files.
pub open spec fn kept_files_alike(
    a: Map<Seq<char>, FileCacheEntry>,
    b: Map<Seq<char>, FileCacheEntry>,
) -> bool {
    &&& a.dom() == b.dom()
    &&& forall|path: Seq<char>| #[trigger]
        a.contains_key(path) ==> kept_file_alike(a[path], b[path])
}

/// Whether the same came of two files.
pub open spec fn output_alike(a: WorkerOutput, b: WorkerOutput) -> bool {
    &&& all_alike(a.functions@, b.functions@)
    &&& match (a.cache_entry, b.cache_entry) {
        (Some((p, x)), Some((q, y))) => p@ == q@ && kept_file_alike(x, y),
        (None, None) => true,
        _ => false,
    }
    &&& texts_alike(a.active_path, b.active_path)
    &&& a.cache_hit == b.cache_hit
    &&& a.cache_miss == b.cache_miss
    &&& warnings_alike(a.warnings@, b.warnings@)
    &&& skips_alike(a.skipped_files@, b.skipped_files@)
}

/// Whether two readings of a file gave the same.
pub open spec fn reads_alike(a: Result<&[u8], String>, b: Result<&[u8], String>) -> bool {
    match (a, b) {
        (Ok(x), Ok(y)) => x@ == y@,
        (Err(x), Err(y)) => x@ == y@,
        _ => false,
    }
}

/// Copies of functions that are told alike are told alike.
proof fn lemma_copies_alike(
    a: Seq<FunctionMetrics>,
    b: Seq<FunctionMetrics>,
    a2: Seq<FunctionMetrics>,
    b2: Seq<FunctionMetrics>,
)
    requires
        same_functions(a, b),
        same_functions(a2, b2),
        all_alike(b, b2),
    ensures
        all_alike(a, a2),
{
    assert forall|i: int| 0 <= i < a.len() implies told_alike(#[trigger] a[i], a2[i]) by {
        assert(same_function(a[i], b[i]));
        assert(same_function(a2[i], b2[i]));
        assert(told_alike(b[i], b2[i]));
    }
}

/// The same functions are found in the same file.
proof fn lemma_found_alike(
    a: Seq<FunctionMetrics>,
    files: Map<Seq<char>, FileCacheEntry>,
    b: Seq<FunctionMetrics>,
    files2: Map<Seq<char>, FileCacheEntry>,
    path: Seq<char>,
    source: Seq<u8>,
)
    requires
        kept_files_alike(files, files2),
        are_found(a, files, path, source),
        are_found(b, files2, path, source),
    ensures
        all_alike(a, b),
{
    assert(files.dom().contains(path) <==> files2.dom().contains(path));
    assert(files.contains_key(path) ==> kept_file_alike(files[path], files2[path]));
    if is_cached(files, path, source) {
        lemma_copies_alike(a, files[path].functions@, b, files2[path].functions@);
    } else {
        lemma_analysis_is_deterministic(a, b, source, path);
    }
}

/// Two analyses of the same file give the same outcome, as long as scores are
/// worked out the same way.
pub proof fn lemma_file_outcome_is_deterministic<F: Fn(u128, usize) -> Score>(
    output: WorkerOutput,
    read: Result<&[u8], String>,
    files: Map<Seq<char>, FileCacheEntry>,
    git_cache: TextMap<GitCacheEntry>,
    output2: WorkerOutput,
    read2: Result<&[u8], String>,
    files2: Map<Seq<char>, FileCacheEntry>,
    git_cache2: TextMap<GitCacheEntry>,
    path: Seq<char>,
    include_authors: bool,
    reference: i64,
    score: F,
)
    requires
        is_score_functional(score),
        reads_alike(read, read2),
        kept_files_alike(files, files2),
        caches_agree(git_cache, git_cache2),
        is_file_output(
            output,
            read,
            path,
            files,
            git_cache,
            include_authors,
            reference,
            score,
        ),
        is_file_output(
            output2,
            read2,
            path,
            files2,
            git_cache2,
            include_authors,
            reference,
            score,
        ),
    ensures
        output_alike(output, output2),
{
    assert(files.dom().contains(path) <==> files2.dom().contains(path));
    assert(files.contains_key(path) ==> kept_file_alike(files[path], files2[path]));
    if read is Ok {
        let source = read->Ok_0@;
        assert(is_cached(files, path, source) == is_cached(files2, path, source));
        if output.cache_entry is Some {
            let a = choose|found: Seq<FunctionMetrics>| #[trigger]
                are_found(found, files, path, source) && tells_functions(
                    output,
                    found,
                    path,
                    source,
                    git_cache,
                    include_authors,
                    reference,
                    score,
                );
            assert(are_found(a, files, path, source));
            assert(output2.cache_entry is Some);
            let b = choose|found: Seq<FunctionMetrics>| #[trigger]
                are_found(found, files2, path, source) && tells_functions(
                    output2,
                    found,
                    path,
                    source,
                    git_cache2,
                    include_authors,
                    reference,
                    score,
                );
            lemma_found_alike(a, files, b, files2, path, source);
            lemma_history_is_told_alike(
                output.functions@,
                a,
                git_cache,
                output2.functions@,
                b,
                git_cache2,
                path,
                include_authors,
                reference,
                score,
            );
            lemma_copies_alike(
                (output.cache_entry->0).1.functions@,
                output.functions@,
                (output2.cache_entry->0).1.functions@,
                output2.functions@,
            );
        } else {
            let e = choose|e: UchikomiError| #[trigger]
                is_refused(e, source, path) && is_skipped(
                    output,
                    path,
                    "failed to analyze file: "@ + e.cause(),
                );
            assert(is_refused(e, source, path));
            assert(output2.cache_entry is None);
            let e2 = choose|e: UchikomiError| #[trigger]
                is_refused(e, source, path) && is_skipped(
                    output2,
                    path,
                    "failed to analyze file: "@ + e.cause(),
                );
            assert(is_refused(e2, source, path));
        }
    }
}

/// Whether the same was gathered.
pub open spec fn gathered_alike(a: Gathered, b: Gathered) -> bool {
    &&& all_alike(a.functions, b.functions)
    &&& kept_files_alike(a.cache_entries, b.cache_entries)
    &&& a.active_paths == b.active_paths
    &&& a.cache_hits == b.cache_hits
    &&& a.cache_misses == b.cache_misses
    &&& warnings_alike(a.warnings, b.warnings)
    &&& skips_alike(a.skipped_files, b.skipped_files)
}

/// Lists of warnings that read the same do so one after the other.
proof fn lemma_warnings_join(
    a: Seq<AnalysisWarning>,
    b: Seq<AnalysisWarning>,
    a2: Seq<AnalysisWarning>,
    b2: Seq<AnalysisWarning>,
)
    requires
        warnings_alike(a, a2),
        warnings_alike(b, b2),
    ensures
        warnings_alike(a + b, a2 + b2),
{
    let x = a + b;
    let y = a2 + b2;
    assert forall|i: int| 0 <= i < x.len() implies warning_alike(#[trigger] x[i], y[i]) by {
        if i < a.len() {
            assert(warning_alike(a[i], a2[i]));
        } else {
            assert(warning_alike(b[i - a.len()], b2[i - a.len()]));
        }
    }
}

/// What was gathered from two groups of files is the same where it is for each.
proof fn lemma_groups_alike(a: Gathered, b: Gathered, a2: Gathered, b2: Gathered)
    requires
        gathered_alike(a, a2),
        gathered_alike(b, b2),
    ensures
        gathered_alike(a.and(b), a2.and(b2)),
{
    let x = a.and(b);
    let y = a2.and(b2);
    assert forall|i: int| 0 <= i < x.functions.len() implies told_alike(
        #[trigger] x.functions[i],
        y.functions[i],
    ) by {
        if i < a.functions.len() {
            assert(told_alike(a.functions[i], a2.functions[i]));
        } else {
            let j = i - a.functions.len();
            assert(told_alike(b.functions[j], b2.functions[j]));
        }
    }
    lemma_warnings_join(a.warnings, b.warnings, a2.warnings, b2.warnings);
    assert forall|i: int| 0 <= i < x.skipped_files.len() implies skip_alike(
        #[trigger] x.skipped_files[i],
        y.skipped_files[i],
    ) by {
        if i < a.skipped_files.len() {
            assert(skip_alike(a.skipped_files[i], a2.skipped_files[i]));
        } else {
            let j = i - a.skipped_files.len();
            assert(skip_alike(b.skipped_files[j], b2.skipped_files[j]));
        }
    }
    assert(x.cache_entries.dom() =~= y.cache_entries.dom());
    assert forall|path: Seq<char>| #[trigger]
        x.cache_entries.contains_key(path) implies kept_file_alike(
        x.cache_entries[path],
        y.cache_entries[path],
    ) by {
        assert(b.cache_entries.dom().contains(path) == b2.cache_entries.dom().contains(path));
        if b.cache_entries.contains_key(path) {
            assert(kept_file_alike(b.cache_entries[path], b2.cache_entries[path]));
        } else {
            assert(a.cache_entries.contains_key(path));
            assert(kept_file_alike(a.cache_entries[path], a2.cache_entries[path]));
        }
    }
}

/// The same is gathered from files that the same came of, one by one.
pub proof fn lemma_gathering_is_deterministic(a: Seq<WorkerOutput>, b: Seq<WorkerOutput>)
    requires
        a.len() == b.len(),
        forall|i: int| 0 <= i < a.len() ==> output_alike(#[trigger] a[i], b[i]),
    ensures
        gathered_alike(gathered(a), gathered(b)),
    decreases a.len(),
{
    if a.len() > 0 {
        let p = a.drop_last();
        let q = b.drop_last();
        assert forall|i: int| 0 <= i < p.len() implies output_alike(#[trigger] p[i], q[i]) by {
            assert(output_alike(a[i], b[i]));
        }
        lemma_gathering_is_deterministic(p, q);
        assert(output_alike(a[a.len() - 1], b[b.len() - 1]));
        let x = Gathered::of(a.last());
        let y = Gathered::of(b.last());
        assert(x.cache_entries.dom() =~= y.cache_entries.dom());
        assert(gathered_alike(x, y));
        lemma_groups_alike(gathered(p), x, gathered(q), y);
    }
}

/// Whether histories were counted under the same circumstances.
pub open spec fn metadata_alike(a: Option<GitCacheMetadata>, b: Option<GitCacheMetadata>) -> bool {
    match (a, b) {
        (Some(x), Some(y)) => {
            &&& x.repository_path@ == y.repository_path@
            &&& x.branch@ == y.branch@
            &&& x.head_oid@ == y.head_oid@
            &&& x.algorithm_version == y.algorithm_version
            &&& x.bug_fix_patterns_hash@ == y.bug_fix_patterns_hash@
        },
        (None, None) => true,
        _ => false,
    }
}

/// Whether the same is to be kept for the next analysis.
pub open spec fn to_save_alike(a: Option<AnalysisCache>, b: Option<AnalysisCache>) -> bool {
    match (a, b) {
        (Some(x), Some(y)) => {
            &&& kept_files_alike(x.files@, y.files@)
            &&& histories_alike(histories(x.git_cache@), histories(y.git_cache@))
            &&& texts_alike(x.last_commit_oid, y.last_commit_oid)
            &&& metadata_alike(x.git_metadata, y.git_metadata)
        },
        (None, None) => true,
        _ => false,
    }
}

/// Whether two analyses start from the same.
pub open spec fn contexts_alike(a: RepoContext, b: RepoContext) -> bool {
    &&& a.metadata.branch@ == b.metadata.branch@
    &&& a.metadata.commit_hash@ == b.metadata.commit_hash@
    &&& a.metadata.timestamp@ == b.metadata.timestamp@
    &&& a.cache_enabled == b.cache_enabled
    &&& a.cache_loaded == b.cache_loaded
    &&& a.repo_path_abs@ == b.repo_path_abs@
    &&& indexes_alike(a.coverage, b.coverage)
    &&& kept_files_alike(a.cache.files@, b.cache.files@)
    &&& metadata_alike(a.cache.git_metadata, b.cache.git_metadata)
}

/// Whether the same was analyzed.
pub open spec fn analysis_alike(a: AnalysisMetadata, b: AnalysisMetadata) -> bool {
    &&& a.repository@ == b.repository@
    &&& a.commit@ == b.commit@
    &&& a.branch@ == b.branch@
    &&& a.timestamp@ == b.timestamp@
}

/// Whether two drafts read the same.
pub open spec fn drafts_alike(a: Draft, b: Draft) -> bool {
    &&& analysis_alike(a.analysis, b.analysis)
    &&& measured_alike(a.measured, b.measured)
    &&& a.git == b.git
    &&& a.cache_enabled == b.cache_enabled
    &&& a.cache_loaded == b.cache_loaded
    &&& a.cache_stats == b.cache_stats
    &&& warnings_alike(a.warnings@, b.warnings@)
    &&& skips_alike(a.skipped_files@, b.skipped_files@)
    &&& to_save_alike(a.to_save, b.to_save)
}

/// One more warning, which reads the same, leaves lists of warnings that read the
/// same.
proof fn lemma_warned_alike(
    after: Seq<AnalysisWarning>,
    before: Seq<AnalysisWarning>,
    after2: Seq<AnalysisWarning>,
    before2: Seq<AnalysisWarning>,
)
    requires
        warnings_alike(before, before2),
        after.len() == before.len() + 1,
        after.drop_last() == before,
        after2.len() == before2.len() + 1,
        after2.drop_last() == before2,
        warning_alike(after.last(), after2.last()),
    ensures
        warnings_alike(after, after2),
{
    assert forall|i: int| 0 <= i < after.len() implies warning_alike(
        #[trigger] after[i],
        after2[i],
    ) by {
        if i < before.len() {
            assert(after[i] == before[i]);
            assert(after2[i] == before2[i]);
            assert(warning_alike(before[i], before2[i]));
        }
    }
}

/// The same warnings arise from measuring functions that are told alike.
proof fn lemma_warned_of_alike(
    after: Seq<AnalysisWarning>,
    before: Seq<AnalysisWarning>,
    found: Seq<FunctionMetrics>,
    after2: Seq<AnalysisWarning>,
    before2: Seq<AnalysisWarning>,
    found2: Seq<FunctionMetrics>,
    sort_by: Seq<char>,
)
    requires
        warnings_alike(before, before2),
        found.len() == found2.len(),
        warned_of(after, before, found, sort_by),
        warned_of(after2, before2, found2, sort_by),
    ensures
        warnings_alike(after, after2),
{
    if found.len() == 0 || sort_key(sort_by) is None {
        lemma_warned_alike(after, before, after2, before2);
    }
}

/// The same is to be kept of the same findings.
proof fn lemma_to_save_alike(
    a: Option<AnalysisCache>,
    ctx: RepoContext,
    found: Gathered,
    kept: Map<Seq<char>, GitCacheEntry>,
    b: Option<AnalysisCache>,
    ctx2: RepoContext,
    found2: Gathered,
    kept2: Map<Seq<char>, GitCacheEntry>,
)
    requires
        contexts_alike(ctx, ctx2),
        gathered_alike(found, found2),
        histories_alike(histories(kept), histories(kept2)),
        is_to_be_saved(a, ctx, found, kept),
        is_to_be_saved(b, ctx2, found2, kept2),
    ensures
        to_save_alike(a, b),
{
}

/// The same metrics are told of the same findings.
proof fn lemma_measured_alike<G, T, W, M, NC, NS, RK, CB>(
    m: Measured,
    found: Seq<FunctionMetrics>,
    coverage: Option<CoverageIndex>,
    git_cache: TextMap<GitCacheEntry>,
    kept: TextMap<GitCacheEntry>,
    m2: Measured,
    found2: Seq<FunctionMetrics>,
    coverage2: Option<CoverageIndex>,
    git_cache2: TextMap<GitCacheEntry>,
    kept2: TextMap<GitCacheEntry>,
    sort_by: Seq<char>,
    limit: Option<usize>,
    numbers: Numbers<G, T, W, M, NC, NS, RK, CB>,
) where
    G: Fn(Ratio) -> Score,
    T: Fn(Score, Score) -> bool,
    W: Fn(Score, Ratio) -> Score,
    M: Fn(&Vec<Ratio>) -> Score,
    NC: Fn(u64, u64) -> Score,
    NS: Fn(Score, Score) -> Score,
    RK: Fn(NormalizedMetrics, Weights, u32) -> RiskNumbers,
    CB: Fn(NormalizedMetrics, Weights) -> Contributions,

    requires
        numbers.are_functional(),
        all_alike(found, found2),
        indexes_alike(coverage, coverage2),
        authors_of(git_cache.values()) == authors_of(git_cache2.values()),
        caches_agree(kept, kept2),
        is_measured(
            m,
            found,
            coverage,
            kept.values(),
            authors_of(git_cache.values()).len(),
            sort_by,
            limit,
            numbers,
        ),
        is_measured(
            m2,
            found2,
            coverage2,
            kept2.values(),
            authors_of(git_cache2.values()).len(),
            sort_by,
            limit,
            numbers,
        ),
    ensures
        measured_alike(m, m2),
{
    lemma_files_in_step(kept, kept2);
    lemma_metrics_are_deterministic(
        m,
        found,
        coverage,
        kept.values(),
        m2,
        found2,
        coverage2,
        kept2.values(),
        authors_of(git_cache.values()).len(),
        sort_by,
        limit,
        numbers,
    );
}

/// In collections that tell the same the files do so one after the other.
proof fn lemma_files_in_step(a: TextMap<GitCacheEntry>, b: TextMap<GitCacheEntry>)
    requires
        caches_agree(a, b),
    ensures
        files_agree(a.values(), b.values()),
{
    lemma_caches_in_step(a, b);
}

/// Drafts on the same findings read the same: in the metrics, in what was analyzed,
/// in what became of the history and of the cache, in the warnings and the files
/// left out, and in what is to be kept.
pub proof fn lemma_drafts_are_alike<G, T, W, M, NC, NS, RK, CB>(
    d: Draft,
    kept: TextMap<GitCacheEntry>,
    ctx: RepoContext,
    git_cache: TextMap<GitCacheEntry>,
    found: Gathered,
    warnings: Seq<AnalysisWarning>,
    d2: Draft,
    kept2: TextMap<GitCacheEntry>,
    ctx2: RepoContext,
    git_cache2: TextMap<GitCacheEntry>,
    found2: Gathered,
    warnings2: Seq<AnalysisWarning>,
    git: GitAnalysisStatus,
    sort_by: Seq<char>,
    limit: Option<usize>,
    numbers: Numbers<G, T, W, M, NC, NS, RK, CB>,
) where
    G: Fn(Ratio) -> Score,
    T: Fn(Score, Score) -> bool,
    W: Fn(Score, Ratio) -> Score,
    M: Fn(&Vec<Ratio>) -> Score,
    NC: Fn(u64, u64) -> Score,
    NS: Fn(Score, Score) -> Score,
    RK: Fn(NormalizedMetrics, Weights, u32) -> RiskNumbers,
    CB: Fn(NormalizedMetrics, Weights) -> Contributions,

    requires
        numbers.are_functional(),
        contexts_alike(ctx, ctx2),
        caches_alike(git_cache, git_cache2),
        gathered_alike(found, found2),
        warnings_alike(warnings, warnings2),
        is_draft(d, kept, ctx, git_cache, git, found, warnings, sort_by, limit, numbers),
        is_draft(d2, kept2, ctx2, git_cache2, git, found2, warnings2, sort_by, limit, numbers),
    ensures
        drafts_alike(d, d2),
{
    lemma_alike_agree(git_cache, git_cache2);
    lemma_files_in_step(git_cache, git_cache2);
    lemma_authors_same(git_cache.values(), git_cache2.values());
    lemma_kept_alike(git_cache, kept, git_cache2, kept2, found.active_paths);
    lemma_alike_agree(kept, kept2);
    lemma_measured_alike(
        d.measured,
        found.functions,
        ctx.coverage,
        git_cache,
        kept,
        d2.measured,
        found2.functions,
        ctx2.coverage,
        git_cache2,
        kept2,
        sort_by,
        limit,
        numbers,
    );
    lemma_warnings_join(warnings, found.warnings, warnings2, found2.warnings);
    lemma_warned_of_alike(
        d.warnings@,
        warnings + found.warnings,
        found.functions,
        d2.warnings@,
        warnings2 + found2.warnings,
        found2.functions,
        sort_by,
    );
    lemma_to_save_alike(d.to_save, ctx, found, kept@, d2.to_save, ctx2, found2, kept2@);
}

/// Whether two summaries of how far an analysis can be relied on read the same.
pub open spec fn qualities_alike(a: AnalysisQuality, b: AnalysisQuality) -> bool {
    &&& a.status == b.status
    &&& a.git == b.git
    &&& a.cache == b.cache
    &&& warnings_alike(a.warnings@, b.warnings@)
    &&& skips_alike(a.skipped_files@, b.skipped_files@)
}

/// Whether two reports read the same, in every field and in the order of every list.
pub open spec fn reports_alike(a: Report, b: Report) -> bool {
    &&& a.schema_version@ == b.schema_version@
    &&& analysis_alike(a.analysis, b.analysis)
    &&& a.scoring_policy.weights == b.scoring_policy.weights
    &&& a.scoring_policy.thresholds == b.scoring_policy.thresholds
    &&& a.scoring_policy.description@ == b.scoring_policy.description@
    &&& summary_alike(a.summary, b.summary)
    &&& qualities_alike(a.quality, b.quality)
    &&& all_alike(a.functions@, b.functions@)
}

/// Whether saving the cache came to the same.
pub open spec fn savings_alike(
    a: Option<Result<(), String>>,
    b: Option<Result<(), String>>,
) -> bool {
    match (a, b) {
        (Some(Err(x)), Some(Err(y))) => x@ == y@,
        (Some(Ok(())), Some(Ok(()))) => true,
        (None, None) => true,
        _ => false,
    }
}

/// Drafts that read the same make reports that read the same.
pub proof fn lemma_finished_reports_are_alike(
    d: Draft,
    report: Report,
    saved: Option<Result<(), String>>,
    d2: Draft,
    report2: Report,
    saved2: Option<Result<(), String>>,
)
    requires
        drafts_alike(d, d2),
        savings_alike(saved, saved2),
        d.makes(report, saved),
        d2.makes(report2, saved2),
    ensures
        reports_alike(report, report2),
{
    if saved is Some && saved->0 is Err {
        lemma_warned_alike(
            report.quality.warnings@,
            d.warnings@,
            report2.quality.warnings@,
            d2.warnings@,
        );
    }
}

/// What the walk over a repository came upon: a file in a supported language, or
/// something to warn of.
pub enum Walked<'a> {
    File { path: Seq<char>, read: Result<&'a [u8], String> },
    Warned { code: Seq<char>, message: Seq<char> },
}

/// What one analysis of a repository goes by.
pub struct Run<'a> {
    pub ctx: RepoContext,
    /// The history of the files.
    pub git_cache: TextMap<GitCacheEntry>,
    pub git: GitAnalysisStatus,
    /// When the history ends, in seconds since 1970.
    pub reference: i64,
    /// The files, in the order of their paths.
    pub walked: Seq<Walked<'a>>,
    /// What was warned of before the files were analyzed.
    pub warnings: Seq<AnalysisWarning>,
    /// What came of saving the cache.
    pub saved: Option<Result<(), String>>,
}

/// Whether two walks came upon the same.
pub open spec fn walked_alike(a: Walked, b: Walked) -> bool {
    match (a, b) {
        (
            Walked::File { path: p, read: x },
            Walked::File { path: q, read: y },
        ) => p == q && reads_alike(x, y),
        (
            Walked::Warned { code: c, message: m },
            Walked::Warned { code: c2, message: m2 },
        ) => c == c2 && m == m2,
        _ => false,
    }
}

/// Whether two analyses go by the same.
pub open spec fn runs_alike(a: Run, b: Run) -> bool {
    &&& contexts_alike(a.ctx, b.ctx)
    &&& caches_alike(a.git_cache, b.git_cache)
    &&& a.git == b.git
    &&& a.reference == b.reference
    &&& a.walked.len() == b.walked.len()
    &&& forall|i: int| 0 <= i < a.walked.len() ==> walked_alike(#[trigger] a.walked[i], b.walked[i])
    &&& warnings_alike(a.warnings, b.warnings)
    &&& savings_alike(a.saved, b.saved)
}

/// Whether this is what came of what the walk came upon.
pub open spec fn is_outcome<F: Fn(u128, usize) -> Score>(
    output: WorkerOutput,
    w: Walked,
    run: Run,
    include_authors: bool,
    score: F,
) -> bool {
    match w {
        Walked::File { path, read } => {
            is_file_output(
                output,
                read,
                path,
                run.ctx.cache.files@,
                run.git_cache,
                include_authors,
                run.reference,
                score,
            )
        },
        Walked::Warned { code, message } => output.warns(code, message),
    }
}

/// Whether a report is put together from the outcomes of a run.
pub open spec fn is_put_together<F, G, T, W, M, NC, NS, RK, CB>(
    report: Report,
    run: Run,
    outputs: Seq<WorkerOutput>,
    d: Draft,
    kept: TextMap<GitCacheEntry>,
    sort_by: Seq<char>,
    limit: Option<usize>,
    include_authors: bool,
    score: F,
    numbers: Numbers<G, T, W, M, NC, NS, RK, CB>,
) -> bool where
    F: Fn(u128, usize) -> Score,
    G: Fn(Ratio) -> Score,
    T: Fn(Score, Score) -> bool,
    W: Fn(Score, Ratio) -> Score,
    M: Fn(&Vec<Ratio>) -> Score,
    NC: Fn(u64, u64) -> Score,
    NS: Fn(Score, Score) -> Score,
    RK: Fn(NormalizedMetrics, Weights, u32) -> RiskNumbers,
    CB: Fn(NormalizedMetrics, Weights) -> Contributions,
 {
    &&& outputs.len() == run.walked.len()
    &&& forall|i: int|
        0 <= i < outputs.len() ==> is_outcome(
            #[trigger] outputs[i],
            run.walked[i],
            run,
            include_authors,
            score,
        )
    &&& is_draft(
        d,
        kept,
        run.ctx,
        run.git_cache,
        run.git,
        gathered(outputs),
        run.warnings,
        sort_by,
        limit,
        numbers,
    )
    &&& d.makes(report, run.saved)
}

/// Whether this is the report of a run: every file is analyzed, the outcomes are
/// gathered in their order, and the report is drafted and finished.
pub open spec fn is_report_of<F, G, T, W, M, NC, NS, RK, CB>(
    report: Report,
    run: Run,
    sort_by: Seq<char>,
    limit: Option<usize>,
    include_authors: bool,
    score: F,
    numbers: Numbers<G, T, W, M, NC, NS, RK, CB>,
) -> bool where
    F: Fn(u128, usize) -> Score,
    G: Fn(Ratio) -> Score,
    T: Fn(Score, Score) -> bool,
    W: Fn(Score, Ratio) -> Score,
    M: Fn(&Vec<Ratio>) -> Score,
    NC: Fn(u64, u64) -> Score,
    NS: Fn(Score, Score) -> Score,
    RK: Fn(NormalizedMetrics, Weights, u32) -> RiskNumbers,
    CB: Fn(NormalizedMetrics, Weights) -> Contributions,
 {
    exists|outputs: Seq<WorkerOutput>, d: Draft, kept: TextMap<GitCacheEntry>| #[trigger]
        is_put_together(
            report,
            run,
            outputs,
            d,
            kept,
            sort_by,
            limit,
            include_authors,
            score,
            numbers,
        )
}

/// The same came of what two walks came upon alike.
proof fn lemma_outcomes_alike<F: Fn(u128, usize) -> Score>(
    output: WorkerOutput,
    w: Walked,
    run: Run,
    output2: WorkerOutput,
    w2: Walked,
    run2: Run,
    include_authors: bool,
    score: F,
)
    requires
        is_score_functional(score),
        runs_alike(run, run2),
        walked_alike(w, w2),
        is_outcome(output, w, run, include_authors, score),
        is_outcome(output2, w2, run2, include_authors, score),
    ensures
        output_alike(output, output2),
{
    if let Walked::File { path, read } = w {
        if let Walked::File { path: path2, read: read2 } = w2 {
            lemma_alike_agree(run.git_cache, run2.git_cache);
            lemma_file_outcome_is_deterministic(
                output,
                read,
                run.ctx.cache.files@,
                run.git_cache,
                output2,
                read2,
                run2.ctx.cache.files@,
                run2.git_cache,
                path,
                include_authors,
                run.reference,
                score,
            );
        }
    }
}

/// The same input always gives the same report: two runs that go by the same, with
/// the same order, limit and choice whether to name authors, give reports that read
/// the same in every field, as long as the arithmetic gives the same results on the
/// same numbers.
pub proof fn lemma_report_is_deterministic<F, G, T, W, M, NC, NS, RK, CB>(
    report: Report,
    run: Run,
    report2: Report,
    run2: Run,
    sort_by: Seq<char>,
    limit: Option<usize>,
    include_authors: bool,
    score: F,
    numbers: Numbers<G, T, W, M, NC, NS, RK, CB>,
) where
    F: Fn(u128, usize) -> Score,
    G: Fn(Ratio) -> Score,
    T: Fn(Score, Score) -> bool,
    W: Fn(Score, Ratio) -> Score,
    M: Fn(&Vec<Ratio>) -> Score,
    NC: Fn(u64, u64) -> Score,
    NS: Fn(Score, Score) -> Score,
    RK: Fn(NormalizedMetrics, Weights, u32) -> RiskNumbers,
    CB: Fn(NormalizedMetrics, Weights) -> Contributions,

    requires
        is_score_functional(score),
        numbers.are_functional(),
        runs_alike(run, run2),
        is_report_of(report, run, sort_by, limit, include_authors, score, numbers),
        is_report_of(report2, run2, sort_by, limit, include_authors, score, numbers),
    ensures
        reports_alike(report, report2),
{
    let (a, d, kept) = choose|
        outputs: Seq<WorkerOutput>,
        d: Draft,
        kept: TextMap<GitCacheEntry>,
    | #[trigger]
        is_put_together(
            report,
            run,
            outputs,
            d,
            kept,
            sort_by,
            limit,
            include_authors,
            score,
            numbers,
        );
    let (b, d2, kept2) = choose|
        outputs: Seq<WorkerOutput>,
        d: Draft,
        kept: TextMap<GitCacheEntry>,
    | #[trigger]
        is_put_together(
            report2,
            run2,
            outputs,
            d,
            kept,
            sort_by,
            limit,
            include_authors,
            score,
            numbers,
        );
    assert forall|i: int| 0 <= i < a.len() implies output_alike(#[trigger] a[i], b[i]) by {
        assert(walked_alike(run.walked[i], run2.walked[i]));
        assert(is_outcome(b[i], run2.walked[i], run2, include_authors, score));
        lemma_outcomes_alike(
            a[i],
            run.walked[i],
            run,
            b[i],
            run2.walked[i],
            run2,
            include_authors,
            score,
        );
    }
    lemma_gathering_is_deterministic(a, b);
    lemma_drafts_are_alike(
        d,
        kept,
        run.ctx,
        run.git_cache,
        gathered(a),
        run.warnings,
        d2,
        kept2,
        run2.ctx,
        run2.git_cache,
        gathered(b),
        run2.warnings,
        run.git,
        sort_by,
        limit,
        numbers,
    );
    lemma_finished_reports_are_alike(d, report, run.saved, d2, report2, run2.saved);
}

/// A file that was analyzed is among those that are there.
proof fn lemma_file_is_active(outputs: Seq<WorkerOutput>, i: int)
    requires
        0 <= i < outputs.len(),
        outputs[i].active_path is Some,
    ensures
        gathered(outputs).active_paths.contains(outputs[i].active_path->0@),
    decreases outputs.len(),
{
    if i < outputs.len() - 1 {
        lemma_file_is_active(outputs.drop_last(), i);
    }
}

/// What came of a file rests on nothing but its own history.
proof fn lemma_outcome_by_kept<F: Fn(u128, usize) -> Score>(
    output: WorkerOutput,
    read: Result<&[u8], String>,
    path: Seq<char>,
    files: Map<Seq<char>, FileCacheEntry>,
    git_cache: TextMap<GitCacheEntry>,
    kept: TextMap<GitCacheEntry>,
    paths: Set<Seq<char>>,
    include_authors: bool,
    reference: i64,
    score: F,
)
    requires
        is_file_output(
            output,
            read,
            path,
            files,
            git_cache,
            include_authors,
            reference,
            score,
        ),
        kept@ == git_cache@.restrict(paths),
        paths.contains(path),
    ensures
        is_file_output(output, read, path, files, kept, include_authors, reference, score),
{
    assert(kept@.contains_key(path) <==> git_cache@.contains_key(path));
    assert(git_cache@.contains_key(path) ==> kept@[path] == git_cache@[path]);
    if read is Ok {
        let source = read->Ok_0@;
        if output.cache_entry is Some {
            let found = choose|found: Seq<FunctionMetrics>| #[trigger]
                are_found(found, files, path, source) && tells_functions(
                    output,
                    found,
                    path,
                    source,
                    git_cache,
                    include_authors,
                    reference,
                    score,
                );
            assert(are_found(found, files, path, source) && tells_functions(
                output,
                found,
                path,
                source,
                kept,
                include_authors,
                reference,
                score,
            ));
        }
    }
}

/// The same came of what two walks came upon alike, as long as what is kept of the
/// histories tells the same.
proof fn lemma_outcomes_agree<F: Fn(u128, usize) -> Score>(
    output: WorkerOutput,
    w: Walked,
    run: Run,
    kept: TextMap<GitCacheEntry>,
    output2: WorkerOutput,
    w2: Walked,
    run2: Run,
    kept2: TextMap<GitCacheEntry>,
    paths: Set<Seq<char>>,
    include_authors: bool,
    score: F,
)
    requires
        is_score_functional(score),
        walked_alike(w, w2),
        is_outcome(output, w, run, include_authors, score),
        is_outcome(output2, w2, run2, include_authors, score),
        run.reference == run2.reference,
        kept_files_alike(run.ctx.cache.files@, run2.ctx.cache.files@),
        caches_agree(kept, kept2),
        kept@ == run.git_cache@.restrict(paths),
        kept2@ == run2.git_cache@.restrict(paths),
        output.active_path is Some ==> paths.contains(output.active_path->0@),
    ensures
        output_alike(output, output2),
{
    if let Walked::File { path, read } = w {
        if let Walked::File { path: path2, read: read2 } = w2 {
            lemma_outcome_by_kept(
                output,
                read,
                path,
                run.ctx.cache.files@,
                run.git_cache,
                kept,
                paths,
                include_authors,
                run.reference,
                score,
            );
            lemma_outcome_by_kept(
                output2,
                read2,
                path,
                run2.ctx.cache.files@,
                run2.git_cache,
                kept2,
                paths,
                include_authors,
                run.reference,
                score,
            );
            lemma_file_outcome_is_deterministic(
                output,
                read,
                run.ctx.cache.files@,
                kept,
                output2,
                read2,
                run2.ctx.cache.files@,
                kept2,
                path,
                include_authors,
                run.reference,
                score,
            );
        }
    }
}

/// Two runs tell the same metrics if the histories of the files that are there tell
/// the same, whatever the order in which their changes were read and however they
/// came about: read in one walk over all commits, or kept from an earlier run and
/// brought up to date. All authors are counted, also of files that are gone, so these
/// have to be known to both.
pub proof fn lemma_metrics_rest_on_what_histories_tell<F, G, T, W, M, NC, NS, RK, CB>(
    report: Report,
    run: Run,
    outputs: Seq<WorkerOutput>,
    d: Draft,
    kept: TextMap<GitCacheEntry>,
    report2: Report,
    run2: Run,
    outputs2: Seq<WorkerOutput>,
    d2: Draft,
    kept2: TextMap<GitCacheEntry>,
    sort_by: Seq<char>,
    limit: Option<usize>,
    include_authors: bool,
    score: F,
    numbers: Numbers<G, T, W, M, NC, NS, RK, CB>,
) where
    F: Fn(u128, usize) -> Score,
    G: Fn(Ratio) -> Score,
    T: Fn(Score, Score) -> bool,
    W: Fn(Score, Ratio) -> Score,
    M: Fn(&Vec<Ratio>) -> Score,
    NC: Fn(u64, u64) -> Score,
    NS: Fn(Score, Score) -> Score,
    RK: Fn(NormalizedMetrics, Weights, u32) -> RiskNumbers,
    CB: Fn(NormalizedMetrics, Weights) -> Contributions,

    requires
        is_score_functional(score),
        numbers.are_functional(),
        is_put_together(
            report,
            run,
            outputs,
            d,
            kept,
            sort_by,
            limit,
            include_authors,
            score,
            numbers,
        ),
        is_put_together(
            report2,
            run2,
            outputs2,
            d2,
            kept2,
            sort_by,
            limit,
            include_authors,
            score,
            numbers,
        ),
        run.reference == run2.reference,
        run.walked.len() == run2.walked.len(),
        forall|i: int|
            0 <= i < run.walked.len() ==> walked_alike(#[trigger] run.walked[i], run2.walked[i]),
        kept_files_alike(run.ctx.cache.files@, run2.ctx.cache.files@),
        indexes_alike(run.ctx.coverage, run2.ctx.coverage),
        is_ordered(run.git_cache),
        is_ordered(run2.git_cache),
        histories_agree(
            histories(run.git_cache@).restrict(gathered(outputs).active_paths),
            histories(run2.git_cache@).restrict(gathered(outputs).active_paths),
        ),
        authors_of(run.git_cache.values()) == authors_of(run2.git_cache.values()),
    ensures
        all_alike(report.functions@, report2.functions@),
        summary_alike(report.summary, report2.summary),
{
    let paths = gathered(outputs).active_paths;
    assert(gathered(outputs2).active_paths == paths) by {
        lemma_same_files_active(run, outputs, run2, outputs2, include_authors, score);
    }
    lemma_kept_agree(run.git_cache, kept, run2.git_cache, kept2, paths);
    assert forall|i: int| 0 <= i < outputs.len() implies output_alike(
        #[trigger] outputs[i],
        outputs2[i],
    ) by {
        assert(walked_alike(run.walked[i], run2.walked[i]));
        assert(is_outcome(outputs[i], run.walked[i], run, include_authors, score));
        assert(is_outcome(outputs2[i], run2.walked[i], run2, include_authors, score));
        if outputs[i].active_path is Some {
            lemma_file_is_active(outputs, i);
        }
        lemma_outcomes_agree(
            outputs[i],
            run.walked[i],
            run,
            kept,
            outputs2[i],
            run2.walked[i],
            run2,
            kept2,
            paths,
            include_authors,
            score,
        );
    }
    lemma_gathering_is_deterministic(outputs, outputs2);
    lemma_measured_alike(
        d.measured,
        gathered(outputs).functions,
        run.ctx.coverage,
        run.git_cache,
        kept,
        d2.measured,
        gathered(outputs2).functions,
        run2.ctx.coverage,
        run2.git_cache,
        kept2,
        sort_by,
        limit,
        numbers,
    );
}

/// A run that reads only the commits that came since the last one tells the same
/// metrics as one that reads all commits anew, in whatever order these come. Where a
/// commit renames files this is left open. The authors of files that are gone have to
/// be known to both runs.
pub proof fn lemma_incremental_run_tells_the_same_metrics<F, G, T, W, M, NC, NS, RK, CB>(
    report: Report,
    run: Run,
    outputs: Seq<WorkerOutput>,
    d: Draft,
    kept: TextMap<GitCacheEntry>,
    after: GitMetricsResult,
    before: GitMetricsResult,
    read: GitBatchMetrics,
    keys: Seq<Seq<char>>,
    report2: Report,
    run2: Run,
    outputs2: Seq<WorkerOutput>,
    d2: Draft,
    kept2: TextMap<GitCacheEntry>,
    whole: GitMetricsResult,
    fresh: GitMetricsResult,
    read_all: GitBatchMetrics,
    keys_all: Seq<Seq<char>>,
    earlier: Seq<CommitOutcome>,
    later: Seq<CommitOutcome>,
    all: Seq<CommitOutcome>,
    patterns: BugFixPatterns,
    sort_by: Seq<char>,
    limit: Option<usize>,
    include_authors: bool,
    score: F,
    numbers: Numbers<G, T, W, M, NC, NS, RK, CB>,
) where
    F: Fn(u128, usize) -> Score,
    G: Fn(Ratio) -> Score,
    T: Fn(Score, Score) -> bool,
    W: Fn(Score, Ratio) -> Score,
    M: Fn(&Vec<Ratio>) -> Score,
    NC: Fn(u64, u64) -> Score,
    NS: Fn(Score, Score) -> Score,
    RK: Fn(NormalizedMetrics, Weights, u32) -> RiskNumbers,
    CB: Fn(NormalizedMetrics, Weights) -> Contributions,

    requires
        is_score_functional(score),
        numbers.are_functional(),
        is_put_together(
            report,
            run,
            outputs,
            d,
            kept,
            sort_by,
            limit,
            include_authors,
            score,
            numbers,
        ),
        is_put_together(
            report2,
            run2,
            outputs2,
            d2,
            kept2,
            sort_by,
            limit,
            include_authors,
            score,
            numbers,
        ),
        run.git_cache == after.cache,
        is_brought_up_to_date(
            after,
            before,
            read,
            keys,
            earlier,
            later,
            patterns,
            gathered(outputs).active_paths,
        ),
        run2.git_cache == whole.cache,
        fresh.cache@ == Map::<Seq<char>, GitCacheEntry>::empty(),
        is_brought_up_to_date(
            whole,
            fresh,
            read_all,
            keys_all,
            Seq::empty(),
            all,
            patterns,
            gathered(outputs).active_paths,
        ),
        all.to_multiset() == (earlier + later).to_multiset(),
        run.reference == run2.reference,
        run.walked.len() == run2.walked.len(),
        forall|i: int|
            0 <= i < run.walked.len() ==> walked_alike(#[trigger] run.walked[i], run2.walked[i]),
        kept_files_alike(run.ctx.cache.files@, run2.ctx.cache.files@),
        indexes_alike(run.ctx.coverage, run2.ctx.coverage),
        is_ordered(run.git_cache),
        is_ordered(run2.git_cache),
        authors_of(run.git_cache.values()) == authors_of(run2.git_cache.values()),
    ensures
        all_alike(report.functions@, report2.functions@),
        summary_alike(report.summary, report2.summary),
{
    lemma_incremental_history_is_that_of_one_walk(
        after,
        before,
        read,
        keys,
        whole,
        fresh,
        read_all,
        keys_all,
        earlier,
        later,
        all,
        patterns,
        gathered(outputs).active_paths,
    );
    lemma_metrics_rest_on_what_histories_tell(
        report,
        run,
        outputs,
        d,
        kept,
        report2,
        run2,
        outputs2,
        d2,
        kept2,
        sort_by,
        limit,
        include_authors,
        score,
        numbers,
    );
}

/// In walks that came upon the same the same files are there.
proof fn lemma_same_files_active<F: Fn(u128, usize) -> Score>(
    run: Run,
    outputs: Seq<WorkerOutput>,
    run2: Run,
    outputs2: Seq<WorkerOutput>,
    include_authors: bool,
    score: F,
)
    requires
        outputs.len() == run.walked.len(),
        outputs2.len() == run2.walked.len(),
        run.walked.len() == run2.walked.len(),
        forall|i: int|
            0 <= i < run.walked.len() ==> walked_alike(#[trigger] run.walked[i], run2.walked[i]),
        forall|i: int|
            0 <= i < outputs.len() ==> is_outcome(
                #[trigger] outputs[i],
                run.walked[i],
                run,
                include_authors,
                score,
            ),
        forall|i: int|
            0 <= i < outputs2.len() ==> is_outcome(
                #[trigger] outputs2[i],
                run2.walked[i],
                run2,
                include_authors,
                score,
            ),
    ensures
        gathered(outputs).active_paths == gathered(outputs2).active_paths,
{
    assert forall|i: int| 0 <= i < outputs.len() implies texts_alike(
        (#[trigger] outputs[i]).active_path,
        outputs2[i].active_path,
    ) by {
        assert(walked_alike(run.walked[i], run2.walked[i]));
        assert(is_outcome(outputs2[i], run2.walked[i], run2, include_authors, score));
    }
    lemma_same_paths_gathered(outputs, outputs2);
}

/// The same paths are gathered from the same files.
proof fn lemma_same_paths_gathered(a: Seq<WorkerOutput>, b: Seq<WorkerOutput>)
    requires
        a.len() == b.len(),
        forall|i: int|
            0 <= i < a.len() ==> texts_alike((#[trigger] a[i]).active_path, b[i].active_path),
    ensures
        gathered(a).active_paths == gathered(b).active_paths,
    decreases a.len(),
{
    if a.len() > 0 {
        let p = a.drop_last();
        let q = b.drop_last();
        assert forall|i: int| 0 <= i < p.len() implies texts_alike(
            (#[trigger] p[i]).active_path,
            q[i].active_path,
        ) by {
            assert(texts_alike(a[i].active_path, b[i].active_path));
        }
        lemma_same_paths_gathered(p, q);
        assert(texts_alike(a[a.len() - 1].active_path, b[b.len() - 1].active_path));
    }
}

} // verus!
