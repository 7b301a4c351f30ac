//! What an analysis starts from: the repository, its settings, and what was kept
//! from the analysis before.

use crate::cache::{is_empty_cache, AnalysisCache, GitCacheEntry};
use crate::coverage::{coverages, lcov_of, parse_lcov, CoverageIndex};
use crate::git::churn::{commit_timestamp, fallback_timestamp, rfc3339_of};
use crate::git::patterns::{
    default_patterns, first_error, patterns_key, usable, BugFixPatterns,
};
use crate::git::plan::GitMetricsResult;
use crate::metrics::{AnalysisWarning, GitAnalysisStatus};
use crate::table::TextMap;
use crate::text::{joined, joined3, views};
use vstd::prelude::*;

verus! {

/// Whether a warning has this code and this message.
pub open spec fn is_warning(w: AnalysisWarning, code: Seq<char>, message: Seq<char>) -> bool {
    w.code@ == code && w.message@ == message
}

/// Whether one warning with this code and this message was added.
pub open spec fn warned(
    after: Seq<AnalysisWarning>,
    before: Seq<AnalysisWarning>,
    code: Seq<char>,
    message: Seq<char>,
) -> bool {
    &&& after.len() == before.len() + 1
    &&& after.drop_last() == before
    &&& is_warning(after.last(), code, message)
}

/// Adds a warning.
pub fn warn(warnings: &mut Vec<AnalysisWarning>, code: &str, message: String)
    ensures
        warned(final(warnings)@, old(warnings)@, code@, message@),
{
    let ghost before = warnings@;
    warnings.push(AnalysisWarning { code: code.to_string(), message });
    assert(warnings@.drop_last() == before);
}

/// Says that the repository cannot be opened.
pub fn git_unavailable(warnings: &mut Vec<AnalysisWarning>, err: &str)
    ensures
        warned(
            final(warnings)@,
            old(warnings)@,
            "git_unavailable"@,
            "Git repository unavailable: "@ + err@,
        ),
{
    warn(warnings, "git_unavailable", joined("Git repository unavailable: ", err));
}

/// Says that there is no place for the cache.
pub fn cache_unavailable(warnings: &mut Vec<AnalysisWarning>, err: &str)
    ensures
        warned(
            final(warnings)@,
            old(warnings)@,
            "cache_unavailable"@,
            "Failed to initialize cache: "@ + err@,
        ),
{
    warn(warnings, "cache_unavailable", joined("Failed to initialize cache: ", err));
}

/// What an analysis starts with: what was kept, or nothing where none was, or where
/// it cannot be loaded.
pub fn load_analysis_cache(
    loaded: Option<Result<AnalysisCache, String>>,
    warnings: &mut Vec<AnalysisWarning>,
) -> (cache: AnalysisCache)
    ensures
        match loaded {
            Some(Ok(kept)) => cache == kept && final(warnings)@ == old(warnings)@,
            Some(Err(err)) => is_empty_cache(cache) && warned(
                final(warnings)@,
                old(warnings)@,
                "cache_load_failed"@,
                "Failed to load cache: "@ + err@,
            ),
            None => is_empty_cache(cache) && final(warnings)@ == old(warnings)@,
        },
{
    match loaded {
        Some(Ok(kept)) => kept,
        Some(Err(err)) => {
            warn(warnings, "cache_load_failed", joined("Failed to load cache: ", err.as_str()));
            AnalysisCache::empty()
        },
        None => AnalysisCache::empty(),
    }
}

/// What reading a file gave.
pub enum FileRead {
    Content(String),
    Missing,
    Failed(String),
}

/// The message for a file that cannot be read.
pub open spec fn read_failed_message(path: Seq<char>, err: Seq<char>) -> Seq<char> {
    "Failed to read "@ + path + ": "@ + err
}

/// The message for a file that cannot be read.
fn read_failed(path: &str, err: &str) -> (message: String)
    ensures
        message@ == read_failed_message(path@, err@),
{
    let start = joined3("Failed to read ", path, ": ");
    joined(start.as_str(), err)
}

/// The content of the configuration file. That there is none is no error.
pub fn config_content(
    read: FileRead,
    config_path: &str,
    warnings: &mut Vec<AnalysisWarning>,
) -> (content: Option<String>)
    ensures
        match read {
            FileRead::Content(text) => content == Some(text) && final(warnings)@ == old(
                warnings,
            )@,
            FileRead::Missing => content is None && final(warnings)@ == old(warnings)@,
            FileRead::Failed(err) => content is None && warned(
                final(warnings)@,
                old(warnings)@,
                "config_read_failed"@,
                read_failed_message(config_path@, err@),
            ),
        },
{
    match read {
        FileRead::Content(text) => Some(text),
        FileRead::Missing => None,
        FileRead::Failed(err) => {
            warn(warnings, "config_read_failed", read_failed(config_path, err.as_str()));
            None
        },
    }
}

/// The settings of an analysis.
pub struct UchikomiConfig {
    pub git: GitConfig,
}

/// The settings for the history.
pub struct GitConfig {
    pub bug_fix_patterns: Vec<String>,
}

impl UchikomiConfig {
    /// The settings where none are given.
    pub fn empty() -> (config: UchikomiConfig)
        ensures
            config.git.bug_fix_patterns@.len() == 0,
    {
        UchikomiConfig { git: GitConfig { bug_fix_patterns: Vec::new() } }
    }
}

/// The settings that a configuration file gives, if there is one and it can be
/// understood.
pub fn load_config(
    parsed: Option<Result<UchikomiConfig, String>>,
    config_path: &str,
    warnings: &mut Vec<AnalysisWarning>,
) -> (config: UchikomiConfig)
    ensures
        match parsed {
            Some(Ok(given)) => config == given && final(warnings)@ == old(warnings)@,
            Some(Err(err)) => config.git.bug_fix_patterns@.len() == 0 && warned(
                final(warnings)@,
                old(warnings)@,
                "config_parse_failed"@,
                "Failed to parse "@ + config_path@ + ": "@ + err@,
            ),
            None => config.git.bug_fix_patterns@.len() == 0 && final(warnings)@ == old(
                warnings,
            )@,
        },
{
    match parsed {
        Some(Ok(given)) => given,
        Some(Err(err)) => {
            let start = joined3("Failed to parse ", config_path, ": ");
            warn(warnings, "config_parse_failed", joined(start.as_str(), err.as_str()));
            UchikomiConfig::empty()
        },
        None => UchikomiConfig::empty(),
    }
}

/// The coverage that a coverage report tells of. That there is none is no error.
pub fn load_coverage_index(
    read: FileRead,
    coverage_path: &str,
    repo_path: &str,
    warnings: &mut Vec<AnalysisWarning>,
) -> (index: Option<CoverageIndex>)
    ensures
        match read {
            FileRead::Content(text) => index is Some && coverages((index->0).files@) == lcov_of(
                text@,
                repo_path@,
            ) && final(warnings)@ == old(warnings)@,
            FileRead::Missing => index is None && final(warnings)@ == old(warnings)@,
            FileRead::Failed(err) => index is None && warned(
                final(warnings)@,
                old(warnings)@,
                "coverage_read_failed"@,
                read_failed_message(coverage_path@, err@),
            ),
        },
{
    match read {
        FileRead::Content(text) => Some(parse_lcov(text.as_str(), repo_path)),
        FileRead::Missing => None,
        FileRead::Failed(err) => {
            warn(warnings, "coverage_read_failed", read_failed(coverage_path, err.as_str()));
            None
        },
    }
}

/// The patterns of the settings, or the default ones where those cannot be used.
pub fn configured_bug_fix_patterns(
    config: &UchikomiConfig,
    warnings: &mut Vec<AnalysisWarning>,
) -> (patterns: BugFixPatterns)
    ensures
        ({
            let given = views(config.git.bug_fix_patterns@);
            if given.len() == 0 {
                &&& patterns.sources() == usable(default_patterns())
                &&& patterns.key() == patterns_key(default_patterns())
                &&& final(warnings)@ == old(warnings)@
            } else {
                match first_error(given) {
                    None => {
                        &&& patterns.sources() == given
                        &&& patterns.key() == patterns_key(given)
                        &&& final(warnings)@ == old(warnings)@
                    },
                    Some(err) => {
                        &&& patterns.sources() == usable(default_patterns())
                        &&& patterns.key() == patterns_key(default_patterns())
                        &&& warned(
                            final(warnings)@,
                            old(warnings)@,
                            "invalid_bug_fix_pattern"@,
                            "Invalid bug-fix pattern configuration: "@ + err,
                        )
                    },
                }
            }
        }),
{
    match BugFixPatterns::from_patterns(&config.git.bug_fix_patterns) {
        Ok(patterns) => patterns,
        Err(err) => {
            let cause = err.into_cause();
            warn(
                warnings,
                "invalid_bug_fix_pattern",
                joined("Invalid bug-fix pattern configuration: ", cause.as_str()),
            );
            BugFixPatterns::default()
        },
    }
}

/// What was analyzed: a branch, a commit on it, and when that was made.
pub struct RepositoryMetadata {
    pub branch: String,
    pub commit_hash: String,
    pub timestamp: String,
}

/// The commit at the head of a branch: its identifier, and its time in seconds
/// since 1970.
pub struct HeadCommit {
    pub id: String,
    pub seconds: i64,
}

/// What is said of a repository without a head.
pub fn unknown_repository_metadata() -> (m: RepositoryMetadata)
    ensures
        m.branch@ == "unknown"@,
        m.commit_hash@.len() == 0,
        m.timestamp@ == fallback_timestamp(),
{
    RepositoryMetadata {
        branch: "unknown".to_string(),
        commit_hash: String::new(),
        timestamp: "1970-01-01T00:00:00+00:00".to_string(),
    }
}

/// What is said of a repository with a head: the branch, whose name may not be
/// text, and the commit, which may be missing.
pub fn metadata_from_head(
    branch: Option<String>,
    commit: Option<HeadCommit>,
) -> (m: RepositoryMetadata)
    ensures
        m.branch@ == match branch {
            Some(name) => name@,
            None => "unknown"@,
        },
        match commit {
            Some(c) => m.commit_hash@ == c.id@ && m.timestamp@ == match rfc3339_of(c.seconds) {
                Some(text) => text,
                None => fallback_timestamp(),
            },
            None => m.commit_hash@.len() == 0 && m.timestamp@ == fallback_timestamp(),
        },
{
    let branch = match branch {
        Some(name) => name,
        None => "unknown".to_string(),
    };
    match commit {
        Some(c) => RepositoryMetadata {
            branch,
            commit_hash: c.id,
            timestamp: commit_timestamp(c.seconds),
        },
        None => RepositoryMetadata {
            branch,
            commit_hash: String::new(),
            timestamp: "1970-01-01T00:00:00+00:00".to_string(),
        },
    }
}

/// What became of the history.
pub enum HistoryOutcome {
    /// There is no repository.
    NoRepository,
    /// It could not be read.
    Failed(String),
    /// It was read.
    Read(GitMetricsResult),
}

/// What the analysis takes from the history: the histories of files, and how they
/// came about.
pub fn collect_git_analysis(
    outcome: HistoryOutcome,
    cache: &mut AnalysisCache,
    warnings: &mut Vec<AnalysisWarning>,
) -> (r: (TextMap<GitCacheEntry>, GitAnalysisStatus))
    ensures
        final(cache).files == old(cache).files,
        final(cache).last_commit_oid == old(cache).last_commit_oid,
        final(cache).git_cache == old(cache).git_cache,
        match outcome {
            HistoryOutcome::NoRepository => {
                &&& r.0@ == Map::<Seq<char>, GitCacheEntry>::empty()
                &&& r.1 == (GitAnalysisStatus {
                    available: false,
                    partial: false,
                    cache_reset: false,
                    processed_commits: 0,
                })
                &&& final(cache).git_metadata == old(cache).git_metadata
                &&& final(warnings)@ == old(warnings)@
            },
            HistoryOutcome::Failed(err) => {
                &&& r.0@ == Map::<Seq<char>, GitCacheEntry>::empty()
                &&& r.1 == (GitAnalysisStatus {
                    available: true,
                    partial: true,
                    cache_reset: false,
                    processed_commits: 0,
                })
                &&& final(cache).git_metadata == old(cache).git_metadata
                &&& warned(
                    final(warnings)@,
                    old(warnings)@,
                    "git_metrics_failed"@,
                    "Failed to collect Git metrics: "@ + err@,
                )
            },
            HistoryOutcome::Read(result) => {
                &&& r.0 == result.cache
                &&& r.1 == (GitAnalysisStatus {
                    available: true,
                    partial: result.partial,
                    cache_reset: result.cache_reset,
                    processed_commits: result.processed_commits,
                })
                &&& final(cache).git_metadata == Some(result.metadata)
                &&& told_as_partial(final(warnings)@, old(warnings)@, views(result.warnings@))
            },
        },
{
    match outcome {
        HistoryOutcome::NoRepository => (
            TextMap::new(),
            GitAnalysisStatus {
                available: false,
                partial: false,
                cache_reset: false,
                processed_commits: 0,
            },
        ),
        HistoryOutcome::Failed(err) => {
            warn(
                warnings,
                "git_metrics_failed",
                joined("Failed to collect Git metrics: ", err.as_str()),
            );
            (
                TextMap::new(),
                GitAnalysisStatus {
                    available: true,
                    partial: true,
                    cache_reset: false,
                    processed_commits: 0,
                },
            )
        },
        HistoryOutcome::Read(result) => {
            assert(warnings@.take(warnings@.len() as int) == warnings@);
            for i in 0..result.warnings.len()
                invariant
                    told_as_partial(
                        warnings@,
                        old(warnings)@,
                        views(result.warnings@).take(i as int),
                    ),
            {
                let ghost before = warnings@;
                let ghost said = views(result.warnings@);
                warnings.push(
                    AnalysisWarning {
                        code: "git_partial".to_string(),
                        message: result.warnings[i].clone(),
                    },
                );
                proof {
                    assert(said[i as int] == result.warnings@[i as int]@);
                    assert(warnings@.take(old(warnings)@.len() as int) =~= before.take(
                        old(warnings)@.len() as int,
                    ));
                }
            }
            assert(views(result.warnings@).take(result.warnings.len() as int) == views(
                result.warnings@,
            ));
            cache.git_metadata = Some(result.metadata);
            (
                result.cache,
                GitAnalysisStatus {
                    available: true,
                    partial: result.partial,
                    cache_reset: result.cache_reset,
                    processed_commits: result.processed_commits,
                },
            )
        },
    }
}

/// Whether messages were added as warnings that the history is not complete.
pub open spec fn told_as_partial(
    after: Seq<AnalysisWarning>,
    before: Seq<AnalysisWarning>,
    messages: Seq<Seq<char>>,
) -> bool {
    &&& after.len() == before.len() + messages.len()
    &&& after.take(before.len() as int) == before
    &&& forall|i: int|
        0 <= i < messages.len() ==> is_warning(
            after[before.len() + i],
            "git_partial"@,
            #[trigger] messages[i],
        )
}

} // verus!
