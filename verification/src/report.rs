//! Puts the report together.

use crate::authors::{authors_of, count_authors};
use crate::cache::{AnalysisCache, GitCacheEntry};
use crate::context::{warn, warned, RepositoryMetadata};
use crate::coupling::{apply_coupling_and_reachability, is_coupled};
use crate::coverage::{apply_coverage, coverages, has_coverage, CoverageIndex};
use crate::gather::{Gathered, WorkerAccumulator};
use crate::metrics::{
    AnalysisMetadata, AnalysisQuality, AnalysisStatus, AnalysisWarning, CacheAnalysisStatus,
    FunctionMetrics, GitAnalysisStatus, NormalizedMetrics, Report, SkippedFile, SummaryStats,
    Weights,
};
use crate::order::is_stable_sort;
use crate::ranking::{
    apply_function_limit, effective_key, is_unsupported_sort, sort_functions, sort_key,
};
use crate::score::{Ratio, Score};
use crate::scoring::{
    compute_scoring_context, default_scoring_policy, is_context, is_default_policy, Arithmetic,
    Contributions, RiskNumbers, ScoringContext,
};
use crate::stats::{
    build_project_coverage, build_project_stats, has_weighed_gap, is_project, is_project_coverage,
    update_coverage_gaps,
};
use crate::table::{ascending, TextMap};
use crate::text::joined;
use crate::worker::CacheStats;
use vstd::prelude::*;

verus! {

/// The version of the report's form.
pub const SCHEMA_VERSION: &'static str = "0.4.0";

/// Whether an analysis is complete: nothing went wrong and nothing was left out.
pub open spec fn is_complete(
    git: GitAnalysisStatus,
    warnings: Seq<AnalysisWarning>,
    skipped_files: Seq<SkippedFile>,
) -> bool {
    warnings.len() == 0 && skipped_files.len() == 0 && !git.partial
}

/// Tells how far the analysis can be relied on.
pub fn build_quality(
    git: GitAnalysisStatus,
    cache_enabled: bool,
    cache_loaded: bool,
    cache_saved: bool,
    cache_stats: CacheStats,
    warnings: Vec<AnalysisWarning>,
    skipped_files: Vec<SkippedFile>,
) -> (quality: AnalysisQuality)
    ensures
        quality == (AnalysisQuality {
            status: if is_complete(git, warnings@, skipped_files@) {
                AnalysisStatus::Complete
            } else {
                AnalysisStatus::Partial
            },
            git,
            cache: CacheAnalysisStatus {
                enabled: cache_enabled,
                loaded: cache_loaded,
                saved: cache_saved,
                ast_hits: cache_stats.hits,
                ast_misses: cache_stats.misses,
            },
            warnings,
            skipped_files,
        }),
{
    let status = if warnings.len() == 0 && skipped_files.len() == 0 && !git.partial {
        AnalysisStatus::Complete
    } else {
        AnalysisStatus::Partial
    };
    AnalysisQuality {
        status,
        git,
        cache: CacheAnalysisStatus {
            enabled: cache_enabled,
            loaded: cache_loaded,
            saved: cache_saved,
            ast_hits: cache_stats.hits,
            ast_misses: cache_stats.misses,
        },
        warnings,
        skipped_files,
    }
}

/// The arithmetic on real numbers that a report takes.
pub struct Numbers<G, T, W, M, NC, NS, RK, CB> where
    G: Fn(Ratio) -> Score,
    T: Fn(Score, Score) -> bool,
    W: Fn(Score, Ratio) -> Score,
    M: Fn(&Vec<Ratio>) -> Score,
    NC: Fn(u64, u64) -> Score,
    NS: Fn(Score, Score) -> Score,
    RK: Fn(NormalizedMetrics, Weights, u32) -> RiskNumbers,
    CB: Fn(NormalizedMetrics, Weights) -> Contributions,
 {
    /// What is left uncovered of a function, by the part of its lines that is
    /// covered.
    pub gap: G,
    /// Whether a score is more than three times another.
    pub thrice: T,
    /// What is left uncovered of a function, weighed by its risk.
    pub weigh: W,
    /// The mean of some ratios.
    pub mean: M,
    /// The scores.
    pub arithmetic: Arithmetic<NC, NS, RK, CB>,
}

impl<G, T, W, M, NC, NS, RK, CB> Numbers<G, T, W, M, NC, NS, RK, CB> where
    G: Fn(Ratio) -> Score,
    T: Fn(Score, Score) -> bool,
    W: Fn(Score, Ratio) -> Score,
    M: Fn(&Vec<Ratio>) -> Score,
    NC: Fn(u64, u64) -> Score,
    NS: Fn(Score, Score) -> Score,
    RK: Fn(NormalizedMetrics, Weights, u32) -> RiskNumbers,
    CB: Fn(NormalizedMetrics, Weights) -> Contributions,
 {
    /// Whether it can be done on all values.
    pub open spec fn are_total(self) -> bool {
        &&& forall|r: Ratio| #[trigger] call_requires(self.gap, (r,))
        &&& forall|a: Score, b: Score| #[trigger] call_requires(self.thrice, (a, b))
        &&& forall|a: Score, r: Ratio| #[trigger] call_requires(self.weigh, (a, r))
        &&& forall|list: Vec<Ratio>| #[trigger] call_requires(self.mean, (&list,))
        &&& self.arithmetic.is_total()
    }
}

/// The functions of a report at each stage of telling more of them.
pub struct Stages {
    /// With their coverage.
    pub covered: Seq<FunctionMetrics>,
    /// With who calls them and whom they call.
    pub coupled: Seq<FunctionMetrics>,
    /// With their risk.
    pub scored: Seq<FunctionMetrics>,
    /// With their level of risk and their percentiles.
    pub labelled: Seq<FunctionMetrics>,
    /// With what is left uncovered, by their risk.
    pub weighed: Seq<FunctionMetrics>,
    /// In the order that was asked for.
    pub sorted: Seq<FunctionMetrics>,
}

/// Whether functions are told with their coverage.
pub open spec fn are_covered<G: Fn(Ratio) -> Score>(
    after: Seq<FunctionMetrics>,
    before: Seq<FunctionMetrics>,
    coverage: Option<CoverageIndex>,
    gap: G,
) -> bool {
    &&& after.len() == before.len()
    &&& forall|i: int|
        0 <= i < after.len() ==> match coverage {
            Some(index) => has_coverage(
                #[trigger] after[i],
                before[i],
                coverages(index.files@),
                gap,
            ),
            None => after[i] == before[i],
        }
}

/// Whether functions are told with who calls them and whom they call.
pub open spec fn are_coupled(after: Seq<FunctionMetrics>, before: Seq<FunctionMetrics>) -> bool {
    &&& after.len() == before.len()
    &&& forall|i: int| 0 <= i < after.len() ==> is_coupled(#[trigger] after[i], before, i)
}

/// Whether functions are told with what is left uncovered, by their risk.
pub open spec fn are_weighed<W: Fn(Score, Ratio) -> Score>(
    after: Seq<FunctionMetrics>,
    before: Seq<FunctionMetrics>,
    weigh: W,
) -> bool {
    &&& after.len() == before.len()
    &&& forall|i: int|
        0 <= i < after.len() ==> has_weighed_gap(before[i], #[trigger] after[i], weigh)
}

/// The first functions of a list, no more than a limit.
pub open spec fn limited(
    functions: Seq<FunctionMetrics>,
    limit: Option<usize>,
) -> Seq<FunctionMetrics> {
    match limit {
        Some(n) => if n < functions.len() {
            functions.take(n as int)
        } else {
            functions
        },
        None => functions,
    }
}

/// The metrics of a report.
pub struct Measured {
    pub functions: Vec<FunctionMetrics>,
    pub summary: SummaryStats,
}

/// Whether functions went through all stages, and the metrics are told of them.
pub open spec fn went_through<G, T, W, M, NC, NS, RK, CB>(
    s: Stages,
    context: ScoringContext,
    m: Measured,
    found: Seq<FunctionMetrics>,
    coverage: Option<CoverageIndex>,
    files: Seq<GitCacheEntry>,
    total_unique_authors: nat,
    sort_by: Seq<char>,
    limit: Option<usize>,
    numbers: Numbers<G, T, W, M, NC, NS, RK, CB>,
) -> bool where
    G: Fn(Ratio) -> Score,
    T: Fn(Score, Score) -> bool,
    W: Fn(Score, Ratio) -> Score,
    M: Fn(&Vec<Ratio>) -> Score,
    NC: Fn(u64, u64) -> Score,
    NS: Fn(Score, Score) -> Score,
    RK: Fn(NormalizedMetrics, Weights, u32) -> RiskNumbers,
    CB: Fn(NormalizedMetrics, Weights) -> Contributions,
 {
    &&& are_covered(s.covered, found, coverage, numbers.gap)
    &&& are_coupled(s.coupled, s.covered)
    &&& is_context(context, s.coupled, numbers.thrice)
    &&& numbers.arithmetic.is_report(s.labelled, s.coupled, s.scored, context.caps)
    &&& are_weighed(s.weighed, s.labelled, numbers.weigh)
    &&& is_stable_sort(&effective_key(sort_by), s.weighed, s.sorted)
    &&& m.functions@ == limited(s.sorted, limit)
    &&& m.summary.total_functions == m.functions@.len()
    &&& is_project(m.summary.project_stats, s.weighed, files, total_unique_authors)
    &&& is_project_coverage(m.summary.coverage, m.functions@, numbers.mean)
    &&& m.summary.max_values == Some(context.max_values)
    &&& m.summary.distributions is Some
    &&& numbers.arithmetic.tells(m.summary.distributions->0, s.scored, context)
}

/// Whether the metrics are those of the functions that were found.
pub open spec fn is_measured<G, T, W, M, NC, NS, RK, CB>(
    m: Measured,
    found: Seq<FunctionMetrics>,
    coverage: Option<CoverageIndex>,
    files: Seq<GitCacheEntry>,
    total_unique_authors: nat,
    sort_by: Seq<char>,
    limit: Option<usize>,
    numbers: Numbers<G, T, W, M, NC, NS, RK, CB>,
) -> bool where
    G: Fn(Ratio) -> Score,
    T: Fn(Score, Score) -> bool,
    W: Fn(Score, Ratio) -> Score,
    M: Fn(&Vec<Ratio>) -> Score,
    NC: Fn(u64, u64) -> Score,
    NS: Fn(Score, Score) -> Score,
    RK: Fn(NormalizedMetrics, Weights, u32) -> RiskNumbers,
    CB: Fn(NormalizedMetrics, Weights) -> Contributions,
 {
    if found.len() == 0 {
        &&& m.functions@.len() == 0
        &&& m.summary.total_functions == 0
        &&& is_project(m.summary.project_stats, found, files, total_unique_authors)
        &&& m.summary.coverage is None
        &&& m.summary.max_values is None
        &&& m.summary.distributions is None
    } else {
        exists|s: Stages, context: ScoringContext| #[trigger]
            went_through(
                s,
                context,
                m,
                found,
                coverage,
                files,
                total_unique_authors,
                sort_by,
                limit,
                numbers,
            )
    }
}

/// Whether the warnings that measuring gives rise to were added.
pub open spec fn warned_of(
    after: Seq<AnalysisWarning>,
    before: Seq<AnalysisWarning>,
    found: Seq<FunctionMetrics>,
    sort_by: Seq<char>,
) -> bool {
    if found.len() == 0 {
        warned(after, before, "no_functions_found"@, "No functions found to analyze."@)
    } else if sort_key(sort_by) is Some {
        after == before
    } else {
        &&& after.len() == before.len() + 1
        &&& after.drop_last() == before
        &&& is_unsupported_sort(after.last(), sort_by)
    }
}

/// Tells all that is told of the functions that were found, and of the project.
pub fn measure<G, T, W, M, NC, NS, RK, CB>(
    found: Vec<FunctionMetrics>,
    coverage: &Option<CoverageIndex>,
    git_cache: &TextMap<GitCacheEntry>,
    total_unique_authors: usize,
    sort_by: &str,
    limit: Option<usize>,
    numbers: &Numbers<G, T, W, M, NC, NS, RK, CB>,
    warnings: &mut Vec<AnalysisWarning>,
) -> (m: Measured) where
    G: Fn(Ratio) -> Score,
    T: Fn(Score, Score) -> bool,
    W: Fn(Score, Ratio) -> Score,
    M: Fn(&Vec<Ratio>) -> Score,
    NC: Fn(u64, u64) -> Score,
    NS: Fn(Score, Score) -> Score,
    RK: Fn(NormalizedMetrics, Weights, u32) -> RiskNumbers,
    CB: Fn(NormalizedMetrics, Weights) -> Contributions,

    requires
        numbers.are_total(),
    ensures
        is_measured(
            m,
            found@,
            *coverage,
            git_cache.values(),
            total_unique_authors as nat,
            sort_by@,
            limit,
            *numbers,
        ),
        warned_of(final(warnings)@, old(warnings)@, found@, sort_by@),
{
    if found.len() == 0 {
        warn(warnings, "no_functions_found", "No functions found to analyze.".to_string());
        let project_stats = build_project_stats(&found, git_cache, total_unique_authors);
        return Measured {
            functions: found,
            summary: SummaryStats {
                total_functions: 0,
                project_stats,
                coverage: None,
                max_values: None,
                distributions: None,
            },
        };
    }
    let mut functions = found;
    apply_coverage(&mut functions, coverage, &numbers.gap);
    let ghost covered = functions@;
    apply_coupling_and_reachability(&mut functions);
    let ghost coupled = functions@;
    let context = compute_scoring_context(&functions, &numbers.thrice);
    let distributions = numbers.arithmetic.apply_scoring_and_labels(&mut functions, &context);
    let ghost labelled = functions@;
    let ghost scored = choose|scored: Seq<FunctionMetrics>| #[trigger]
        numbers.arithmetic.is_report(labelled, coupled, scored, context.caps)
            && numbers.arithmetic.tells(distributions, scored, context);
    update_coverage_gaps(&mut functions, &numbers.weigh);
    let ghost weighed = functions@;
    let project_stats = build_project_stats(&functions, git_cache, total_unique_authors);
    sort_functions(&mut functions, sort_by, warnings);
    let ghost sorted = functions@;
    apply_function_limit(&mut functions, limit);
    let project_coverage = build_project_coverage(&functions, &numbers.mean);
    let total_functions: usize = functions.len();
    let m = Measured {
        functions,
        summary: SummaryStats {
            total_functions,
            project_stats,
            coverage: project_coverage,
            max_values: Some(context.max_values),
            distributions: Some(distributions),
        },
    };
    proof {
        let s = Stages { covered, coupled, scored, labelled, weighed, sorted };
        assert(are_covered(covered, found@, *coverage, numbers.gap));
        assert(went_through(
            s,
            context,
            m,
            found@,
            *coverage,
            git_cache.values(),
            total_unique_authors as nat,
            sort_by@,
            limit,
            *numbers,
        ));
    }
    m
}

/// What an analysis starts from.
pub struct RepoContext {
    pub metadata: RepositoryMetadata,
    pub cache_enabled: bool,
    pub cache: AnalysisCache,
    pub cache_loaded: bool,
    pub repo_path_abs: String,
    pub coverage: Option<CoverageIndex>,
}

impl RepoContext {
    /// What an analysis starts from. The cache counts as loaded if there is one and
    /// it holds anything.
    pub fn new(
        metadata: RepositoryMetadata,
        cache_enabled: bool,
        cache: AnalysisCache,
        repo_path_abs: String,
        coverage: Option<CoverageIndex>,
    ) -> (ctx: RepoContext)
        ensures
            ctx == (RepoContext {
                metadata,
                cache_enabled,
                cache,
                cache_loaded: ctx.cache_loaded,
                repo_path_abs,
                coverage,
            }),
            ctx.cache_loaded == (cache_enabled && (cache.files.keys().len() > 0
                || cache.git_cache.keys().len() > 0 || cache.last_commit_oid is Some)),
    {
        let cache_loaded = cache_enabled && cache.has_entries();
        RepoContext { metadata, cache_enabled, cache, cache_loaded, repo_path_abs, coverage }
    }
}

/// A report but for whether the cache was saved.
pub struct Draft {
    pub analysis: AnalysisMetadata,
    pub measured: Measured,
    pub git: GitAnalysisStatus,
    pub cache_enabled: bool,
    pub cache_loaded: bool,
    pub cache_stats: CacheStats,
    pub warnings: Vec<AnalysisWarning>,
    pub skipped_files: Vec<SkippedFile>,
    /// What to keep for the next analysis.
    pub to_save: Option<AnalysisCache>,
}

/// Whether the metadata of a report tell what was analyzed.
pub open spec fn tells_what_was_analyzed(a: AnalysisMetadata, ctx: RepoContext) -> bool {
    &&& a.repository@ == ctx.repo_path_abs@
    &&& a.commit@ == ctx.metadata.commit_hash@
    &&& a.branch@ == ctx.metadata.branch@
    &&& a.timestamp@ == ctx.metadata.timestamp@
}

/// Whether what is to be kept is what was found: there is a cache, and there are
/// functions.
pub open spec fn is_to_be_saved(
    to_save: Option<AnalysisCache>,
    ctx: RepoContext,
    found: Gathered,
    kept: Map<Seq<char>, GitCacheEntry>,
) -> bool {
    match to_save {
        Some(cache) => {
            &&& ctx.cache_enabled
            &&& found.functions.len() > 0
            &&& cache.files@ == found.cache_entries
            &&& cache.git_cache@ == kept
            &&& match cache.last_commit_oid {
                Some(oid) => ctx.metadata.commit_hash@.len() > 0 && oid@
                    == ctx.metadata.commit_hash@,
                None => ctx.metadata.commit_hash@.len() == 0,
            }
            &&& cache.git_metadata == ctx.cache.git_metadata
        },
        None => !ctx.cache_enabled || found.functions.len() == 0,
    }
}

/// Whether this is the draft of a report: the histories of files that are no longer
/// there are dropped, and everything is told of the functions that were found.
pub open spec fn is_draft<G, T, W, M, NC, NS, RK, CB>(
    d: Draft,
    kept: TextMap<GitCacheEntry>,
    ctx: RepoContext,
    git_cache: TextMap<GitCacheEntry>,
    git: GitAnalysisStatus,
    found: Gathered,
    warnings: Seq<AnalysisWarning>,
    sort_by: Seq<char>,
    limit: Option<usize>,
    numbers: Numbers<G, T, W, M, NC, NS, RK, CB>,
) -> bool where
    G: Fn(Ratio) -> Score,
    T: Fn(Score, Score) -> bool,
    W: Fn(Score, Ratio) -> Score,
    M: Fn(&Vec<Ratio>) -> Score,
    NC: Fn(u64, u64) -> Score,
    NS: Fn(Score, Score) -> Score,
    RK: Fn(NormalizedMetrics, Weights, u32) -> RiskNumbers,
    CB: Fn(NormalizedMetrics, Weights) -> Contributions,
 {
    &&& kept@ == git_cache@.restrict(found.active_paths)
    &&& ascending(kept.keys())
    &&& tells_what_was_analyzed(d.analysis, ctx)
    &&& is_measured(
        d.measured,
        found.functions,
        ctx.coverage,
        kept.values(),
        authors_of(git_cache.values()).len(),
        sort_by,
        limit,
        numbers,
    )
    &&& d.git == git
    &&& d.cache_enabled == ctx.cache_enabled
    &&& d.cache_loaded == ctx.cache_loaded
    &&& d.cache_stats.hits == found.cache_hits
    &&& d.cache_stats.misses == found.cache_misses
    &&& warned_of(d.warnings@, warnings + found.warnings, found.functions, sort_by)
    &&& d.skipped_files@ == found.skipped_files
    &&& is_to_be_saved(d.to_save, ctx, found, kept@)
}

/// Drafts the report on what was found in a repository.
pub fn draft_report<G, T, W, M, NC, NS, RK, CB>(
    ctx: RepoContext,
    git_cache: TextMap<GitCacheEntry>,
    git: GitAnalysisStatus,
    found: WorkerAccumulator,
    warnings: Vec<AnalysisWarning>,
    sort_by: &str,
    limit: Option<usize>,
    numbers: &Numbers<G, T, W, M, NC, NS, RK, CB>,
) -> (d: Draft) where
    G: Fn(Ratio) -> Score,
    T: Fn(Score, Score) -> bool,
    W: Fn(Score, Ratio) -> Score,
    M: Fn(&Vec<Ratio>) -> Score,
    NC: Fn(u64, u64) -> Score,
    NS: Fn(Score, Score) -> Score,
    RK: Fn(NormalizedMetrics, Weights, u32) -> RiskNumbers,
    CB: Fn(NormalizedMetrics, Weights) -> Contributions,

    requires
        numbers.are_total(),
    ensures
        exists|kept: TextMap<GitCacheEntry>| #[trigger]
            is_draft(
                d,
                kept,
                ctx,
                git_cache,
                git,
                found@,
                warnings@,
                sort_by@,
                limit,
                *numbers,
            ),
{
    let ghost gathered = found@;
    let ghost given = warnings@;
    let ghost given_cache = git_cache;
    let ghost start = ctx;
    let total_unique_authors: usize = count_authors(&git_cache);
    let cache_stats = found.cache_stats();
    let WorkerAccumulator {
        functions,
        cache_entries,
        active_paths,
        cache_hits: _,
        cache_misses: _,
        warnings: mut more_warnings,
        skipped_files,
    } = found;
    let mut warnings = warnings;
    warnings.append(&mut more_warnings);
    let kept = git_cache.retain(&active_paths);
    let _kept_files: usize = kept.len();
    let any: usize = functions.len();
    let measured = measure(
        functions,
        &ctx.coverage,
        &kept,
        total_unique_authors,
        sort_by,
        limit,
        numbers,
        &mut warnings,
    );
    let analysis = AnalysisMetadata {
        repository: ctx.repo_path_abs.clone(),
        commit: ctx.metadata.commit_hash.clone(),
        branch: ctx.metadata.branch.clone(),
        timestamp: ctx.metadata.timestamp.clone(),
    };
    let ghost histories = kept;
    let to_save = if ctx.cache_enabled && any > 0 {
        Some(ctx.cache.renewed(cache_entries, kept, ctx.metadata.commit_hash.as_str()))
    } else {
        None
    };
    let d = Draft {
        analysis,
        measured,
        git,
        cache_enabled: ctx.cache_enabled,
        cache_loaded: ctx.cache_loaded,
        cache_stats,
        warnings,
        skipped_files,
        to_save,
    };
    assert(is_draft(
        d,
        histories,
        start,
        given_cache,
        git,
        gathered,
        given,
        sort_by@,
        limit,
        *numbers,
    ));
    d
}

impl Draft {
    /// Whether this is the report that a draft makes once it is known whether the
    /// cache was saved. `None` stands for no attempt to save it.
    pub open spec fn makes(self, report: Report, saved: Option<Result<(), String>>) -> bool {
        &&& report.schema_version@ == "0.4.0"@
        &&& report.analysis == self.analysis
        &&& is_default_policy(report.scoring_policy)
        &&& report.summary == self.measured.summary
        &&& report.functions == self.measured.functions
        &&& report.quality.git == self.git
        &&& report.quality.cache == (CacheAnalysisStatus {
            enabled: self.cache_enabled,
            loaded: self.cache_loaded,
            saved: saved is Some && saved->0 is Ok,
            ast_hits: self.cache_stats.hits,
            ast_misses: self.cache_stats.misses,
        })
        &&& match saved {
            Some(Err(err)) => warned(
                report.quality.warnings@,
                self.warnings@,
                "cache_save_failed"@,
                "Failed to save cache: "@ + err@,
            ),
            _ => report.quality.warnings@ == self.warnings@,
        }
        &&& report.quality.skipped_files == self.skipped_files
        &&& report.quality.status == if is_complete(
            self.git,
            report.quality.warnings@,
            report.quality.skipped_files@,
        ) {
            AnalysisStatus::Complete
        } else {
            AnalysisStatus::Partial
        }
    }

    /// Finishes the report.
    pub fn finish(self, saved: Option<Result<(), String>>) -> (report: Report)
        ensures
            self.makes(report, saved),
    {
        let mut warnings = self.warnings;
        let cache_saved = match saved {
            Some(Ok(())) => true,
            Some(Err(err)) => {
                warn(
                    &mut warnings,
                    "cache_save_failed",
                    joined("Failed to save cache: ", err.as_str()),
                );
                false
            },
            None => false,
        };
        let quality = build_quality(
            self.git,
            self.cache_enabled,
            self.cache_loaded,
            cache_saved,
            self.cache_stats,
            warnings,
            self.skipped_files,
        );
        Report {
            schema_version: SCHEMA_VERSION.to_string(),
            analysis: self.analysis,
            scoring_policy: default_scoring_policy(),
            summary: self.measured.summary,
            quality,
            functions: self.measured.functions,
        }
    }
}

} // verus!
