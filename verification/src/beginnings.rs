//! What an analysis begins with, and what it falls back to.

use crate::cache::{AnalysisCache, GitCacheEntry};
use crate::context::{
    collect_git_analysis, config_content, configured_bug_fix_patterns, is_warning,
    load_analysis_cache, load_config, load_coverage_index, metadata_from_head, told_as_partial,
    unknown_repository_metadata, FileRead, HeadCommit, HistoryOutcome, RepositoryMetadata,
    UchikomiConfig,
};
use crate::coverage::{coverages, lcov_of, CoverageIndex};
use crate::git::churn::{rfc3339_of, GitAnalyzer};
use crate::git::patterns::{default_patterns, first_error, pattern_error, usable, BugFixPatterns};
use crate::git::plan::{GitMetricsResult, HistoryStep};
use crate::git::tallies::lemma_first_error;
use crate::metrics::{AnalysisWarning, FunctionMetrics, GitAnalysisStatus};
use crate::ranking::apply_function_limit;
use crate::table::TextMap;
use crate::text::views;
use vstd::prelude::*;

verus! {

/// Whether one warning was added, with this code.
pub open spec fn is_warned(
    after: Seq<AnalysisWarning>,
    before: Seq<AnalysisWarning>,
    code: Seq<char>,
) -> bool {
    &&& after.len() == before.len() + 1
    &&& forall|i: int| 0 <= i < before.len() ==> #[trigger] after[i] == before[i]
    &&& after.last().code@ == code
}

proof fn lemma_warned(after: Seq<AnalysisWarning>, before: Seq<AnalysisWarning>, code: Seq<char>)
    requires
        after.len() == before.len() + 1,
        after.drop_last() == before,
        after.last().code@ == code,
    ensures
        is_warned(after, before, code),
{
    assert forall|i: int| 0 <= i < before.len() implies #[trigger] after[i] == before[i] by {
        assert(after.drop_last()[i] == after[i]);
    }
}

/// The settings are those that are given. Where none are, or they cannot be understood,
/// there are no patterns in them, and the latter is warned of.
pub proof fn lemma_settings_fall_back(
    parsed: Option<Result<UchikomiConfig, String>>,
    path: &str,
)
    ensures
        forall|w: &mut Vec<AnalysisWarning>, c: UchikomiConfig| #[trigger]
            call_ensures(load_config, (parsed, path, w), c) ==> {
                &&& parsed is None ==> c.git.bug_fix_patterns@.len() == 0 && final(w)@ == w@
                &&& parsed is Some && parsed->0 is Ok ==> c == parsed->0->Ok_0 && final(w)@ == w@
                &&& parsed is Some && parsed->0 is Err ==> c.git.bug_fix_patterns@.len() == 0
                    && is_warned(final(w)@, w@, "config_parse_failed"@)
            },
{
    assert forall|w: &mut Vec<AnalysisWarning>, c: UchikomiConfig| #[trigger]
        call_ensures(load_config, (parsed, path, w), c) && parsed is Some
            && parsed->0 is Err implies is_warned(final(w)@, w@, "config_parse_failed"@) by {
        lemma_warned(final(w)@, w@, "config_parse_failed"@);
    }
}

/// A configuration file that is missing is no error; one that cannot be read is warned
/// of.
pub proof fn lemma_settings_may_be_missing(read: FileRead, path: &str)
    ensures
        forall|w: &mut Vec<AnalysisWarning>, c: Option<String>| #[trigger]
            call_ensures(config_content, (read, path, w), c) ==> {
                &&& read is Missing ==> c is None && final(w)@ == w@
                &&& read is Content ==> c == Some(read->Content_0) && final(w)@ == w@
                &&& read is Failed ==> c is None && is_warned(
                    final(w)@,
                    w@,
                    "config_read_failed"@,
                )
            },
{
    assert forall|w: &mut Vec<AnalysisWarning>, c: Option<String>| #[trigger]
        call_ensures(config_content, (read, path, w), c) && read is Failed implies is_warned(
        final(w)@,
        w@,
        "config_read_failed"@,
    ) by {
        lemma_warned(final(w)@, w@, "config_read_failed"@);
    }
}

/// A coverage report that is missing is no error; one that cannot be read is warned of.
/// Otherwise the coverage is what the report tells.
pub proof fn lemma_coverage_may_be_missing(read: FileRead, path: &str, repo_path: &str)
    ensures
        forall|w: &mut Vec<AnalysisWarning>, c: Option<CoverageIndex>| #[trigger]
            call_ensures(load_coverage_index, (read, path, repo_path, w), c) ==> {
                &&& read is Missing ==> c is None && final(w)@ == w@
                &&& read is Content ==> c is Some && coverages((c->0).files@) == lcov_of(
                    read->Content_0@,
                    repo_path@,
                ) && final(w)@ == w@
                &&& read is Failed ==> c is None && is_warned(
                    final(w)@,
                    w@,
                    "coverage_read_failed"@,
                )
            },
{
    assert forall|w: &mut Vec<AnalysisWarning>, c: Option<CoverageIndex>| #[trigger]
        call_ensures(load_coverage_index, (read, path, repo_path, w), c)
            && read is Failed implies is_warned(final(w)@, w@, "coverage_read_failed"@) by {
        lemma_warned(final(w)@, w@, "coverage_read_failed"@);
    }
}

/// An analysis begins with what was kept, and with nothing where nothing was, or where
/// it cannot be loaded, which is warned of.
pub proof fn lemma_analysis_begins_anew(loaded: Option<Result<AnalysisCache, String>>)
    ensures
        forall|w: &mut Vec<AnalysisWarning>, c: AnalysisCache| #[trigger]
            call_ensures(load_analysis_cache, (loaded, w), c) ==> {
                &&& loaded is Some && loaded->0 is Ok ==> c == loaded->0->Ok_0 && final(w)@ == w@
                &&& !(loaded is Some && loaded->0 is Ok) ==> c.files@.dom() =~= Set::<
                    Seq<char>,
                >::empty() && c.git_cache@.dom() =~= Set::<Seq<char>>::empty()
                    && c.last_commit_oid is None && c.git_metadata is None
                &&& loaded is None ==> final(w)@ == w@
                &&& loaded is Some && loaded->0 is Err ==> is_warned(
                    final(w)@,
                    w@,
                    "cache_load_failed"@,
                )
            },
{
    assert forall|w: &mut Vec<AnalysisWarning>, c: AnalysisCache| #[trigger]
        call_ensures(load_analysis_cache, (loaded, w), c) && loaded is Some
            && loaded->0 is Err implies is_warned(final(w)@, w@, "cache_load_failed"@) by {
        lemma_warned(final(w)@, w@, "cache_load_failed"@);
    }
}

/// The patterns of the settings are used if they are all right. The default ones are used
/// where there are none, and where one of them is wrong, which is warned of.
pub proof fn lemma_wrong_patterns_are_not_used(config: UchikomiConfig)
    ensures
        forall|w: &mut Vec<AnalysisWarning>, p: BugFixPatterns| #[trigger]
            call_ensures(configured_bug_fix_patterns, (&config, w), p) ==> {
                let given = config.git.bug_fix_patterns@;
                let wrong = exists|i: int|
                    0 <= i < given.len() && pattern_error((#[trigger] given[i])@) is Some;
                &&& given.len() == 0 ==> p.sources() == usable(default_patterns()) && final(w)@
                    == w@
                &&& given.len() > 0 && !wrong ==> p.sources().len() == given.len() && (forall|
                    i: int,
                |
                    0 <= i < given.len() ==> p.sources()[i] == (#[trigger] given[i])@)
                    && final(w)@ == w@
                &&& wrong ==> p.sources() == usable(default_patterns()) && is_warned(
                    final(w)@,
                    w@,
                    "invalid_bug_fix_pattern"@,
                )
            },
{
    let given = config.git.bug_fix_patterns@;
    let all = views(given);
    lemma_first_error(all);
    assert forall|i: int| 0 <= i < given.len() implies all[i] == (#[trigger] given[i])@ by {}
    let wrong = exists|i: int|
        0 <= i < given.len() && pattern_error((#[trigger] given[i])@) is Some;
    if first_error(all) is Some {
        let i = choose|i: int|
            0 <= i < all.len() && pattern_error(#[trigger] all[i]) == first_error(all)
                && forall|j: int| 0 <= j < i ==> pattern_error(#[trigger] all[j]) is None;
        assert(pattern_error(given[i]@) is Some);
    }
    if wrong {
        let i = choose|i: int|
            0 <= i < given.len() && pattern_error((#[trigger] given[i])@) is Some;
        assert(pattern_error(all[i]) is Some);
    }
    assert(wrong <==> first_error(all) is Some);
    assert forall|w: &mut Vec<AnalysisWarning>, p: BugFixPatterns| #[trigger]
        call_ensures(configured_bug_fix_patterns, (&config, w), p) && wrong implies is_warned(
        final(w)@,
        w@,
        "invalid_bug_fix_pattern"@,
    ) by {
        lemma_warned(final(w)@, w@, "invalid_bug_fix_pattern"@);
    }
}

/// Whether a warning says that the history is partial, and why.
pub open spec fn says_partial(w: AnalysisWarning, message: Seq<char>) -> bool {
    w.code@ == "git_partial"@ && w.message@ == message
}

/// Whether messages were added one by one, each as a warning that the history is partial.
pub open spec fn are_warned(
    after: Seq<AnalysisWarning>,
    before: Seq<AnalysisWarning>,
    messages: Seq<String>,
) -> bool {
    &&& after.len() == before.len() + messages.len()
    &&& forall|i: int| 0 <= i < before.len() ==> #[trigger] after[i] == before[i]
    &&& forall|i: int|
        0 <= i < messages.len() ==> says_partial(
            after[before.len() + i],
            (#[trigger] messages[i])@,
        )
}

proof fn lemma_are_warned(
    after: Seq<AnalysisWarning>,
    before: Seq<AnalysisWarning>,
    messages: Seq<String>,
)
    requires
        told_as_partial(after, before, views(messages)),
    ensures
        are_warned(after, before, messages),
{
    let told = views(messages);
    assert(told.len() == messages.len());
    assert forall|i: int| 0 <= i < before.len() implies #[trigger] after[i] == before[i] by {
        assert(after.take(before.len() as int)[i] == after[i]);
    }
    assert forall|i: int| 0 <= i < messages.len() implies says_partial(
        after[before.len() + i],
        (#[trigger] messages[i])@,
    ) by {
        assert(told[i] == messages[i]@);
        assert(is_warning(after[before.len() + i], "git_partial"@, told[i]));
    }
}

/// What the history is told to be: unavailable without a repository, partial where it
/// could not be read, which is warned of, and else as it was read.
pub proof fn lemma_history_is_taken_as_read(outcome: HistoryOutcome)
    ensures
        forall|
            cache: &mut AnalysisCache,
            w: &mut Vec<AnalysisWarning>,
            r: (TextMap<GitCacheEntry>, GitAnalysisStatus),
        | #[trigger]
            call_ensures(collect_git_analysis, (outcome, cache, w), r) ==> {
                &&& final(cache).files == cache.files
                &&& final(cache).git_cache == cache.git_cache
                &&& final(cache).last_commit_oid == cache.last_commit_oid
                &&& r.1.available <==> !(outcome is NoRepository)
                &&& outcome is NoRepository ==> r.0@.dom() =~= Set::<Seq<char>>::empty()
                    && !r.1.partial && r.1.processed_commits == 0 && final(w)@ == w@
                &&& outcome is Failed ==> r.0@.dom() =~= Set::<Seq<char>>::empty() && r.1.partial
                    && r.1.processed_commits == 0 && is_warned(
                    final(w)@,
                    w@,
                    "git_metrics_failed"@,
                )
                &&& outcome is Read ==> {
                    let read = outcome->Read_0;
                    &&& r.0 == read.cache
                    &&& r.1.partial == read.partial
                    &&& r.1.cache_reset == read.cache_reset
                    &&& r.1.processed_commits == read.processed_commits
                    &&& final(cache).git_metadata == Some(read.metadata)
                    &&& are_warned(final(w)@, w@, read.warnings@)
                }
            },
{
    assert forall|
        cache: &mut AnalysisCache,
        w: &mut Vec<AnalysisWarning>,
        r: (TextMap<GitCacheEntry>, GitAnalysisStatus),
    | #[trigger]
        call_ensures(collect_git_analysis, (outcome, cache, w), r) && outcome is Failed implies
        is_warned(final(w)@, w@, "git_metrics_failed"@) by {
        lemma_warned(final(w)@, w@, "git_metrics_failed"@);
    }
    assert forall|
        cache: &mut AnalysisCache,
        w: &mut Vec<AnalysisWarning>,
        r: (TextMap<GitCacheEntry>, GitAnalysisStatus),
    | #[trigger]
        call_ensures(collect_git_analysis, (outcome, cache, w), r) && outcome is Read implies
        are_warned(final(w)@, w@, outcome->Read_0.warnings@) by {
        lemma_are_warned(final(w)@, w@, outcome->Read_0.warnings@);
    }
}

/// A kept history is gone on with only if its commit is an ancestor of the current one;
/// otherwise it is dropped, all commits are read, and it is told.
pub proof fn lemma_other_branches_are_read_anew(oid: String, is_ancestor: bool)
    ensures
        forall|result: &mut GitMetricsResult, step: HistoryStep| #[trigger]
            call_ensures(GitAnalyzer::ancestor_checked, (result, oid, is_ancestor), step) ==> {
                &&& is_ancestor ==> *final(result) == *result && step == HistoryStep::WalkBehind(
                    oid,
                )
                &&& !is_ancestor ==> step is WalkAll && final(result).cache@.dom() =~= Set::<
                    Seq<char>,
                >::empty() && final(result).cache_reset && final(result).warnings@.len()
                    == result.warnings@.len() + 1
            },
{
    assert forall|result: &mut GitMetricsResult, step: HistoryStep| #[trigger]
        call_ensures(
            GitAnalyzer::ancestor_checked,
            (result, oid, is_ancestor),
            step,
        ) && !is_ancestor implies final(result).warnings@.len() == result.warnings@.len() + 1 by {
        assert(views(final(result).warnings@).len() == views(result.warnings@).len() + 1);
    }
}

/// A repository is told with its branch and its commit as far as they are known, and the
/// time of the commit, or the beginning of 1970 where it cannot be written.
pub proof fn lemma_head_is_told(
    branch: Option<String>,
    commit: Option<HeadCommit>,
    m: RepositoryMetadata,
    unknown: RepositoryMetadata,
)
    requires
        call_ensures(metadata_from_head, (branch, commit), m),
        call_ensures(unknown_repository_metadata, (), unknown),
    ensures
        branch is Some ==> m.branch@ == branch->0@,
        branch is None ==> m.branch@ == "unknown"@,
        commit is Some ==> m.commit_hash@ == commit->0.id@,
        commit is Some && rfc3339_of(commit->0.seconds) is Some ==> m.timestamp@ == rfc3339_of(
            commit->0.seconds,
        )->0,
        commit is Some && rfc3339_of(commit->0.seconds) is None ==> m.timestamp@
            == "1970-01-01T00:00:00+00:00"@,
        commit is None ==> m.commit_hash@.len() == 0 && m.timestamp@
            == "1970-01-01T00:00:00+00:00"@,
        unknown.branch@ == "unknown"@,
        unknown.commit_hash@.len() == 0,
        unknown.timestamp@ == "1970-01-01T00:00:00+00:00"@,
{
}

/// A limit keeps the first functions, as many as it says, and no limit keeps all.
pub proof fn lemma_limit_keeps_the_first(limit: Option<usize>)
    ensures
        forall|list: &mut Vec<FunctionMetrics>, r: ()| #[trigger]
            call_ensures(apply_function_limit, (list, limit), r) ==> {
                &&& final(list)@.len() == if limit is Some && limit->0 < list@.len() {
                    limit->0 as nat
                } else {
                    list@.len()
                }
                &&& forall|i: int|
                    0 <= i < final(list)@.len() ==> #[trigger] final(list)@[i] == list@[i]
            },
{
}

} // verus!
