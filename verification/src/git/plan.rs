//! Decides how much of the history has to be read again.

use super::churn::GitAnalyzer;
use super::commits::GitBatchMetrics;
use super::history::{histories, merged_histories};
use super::patterns::BugFixPatterns;
use super::renames::{alias_map, carried_over};
use crate::cache::{GitCacheEntry, GitCacheMetadata, GIT_ALGORITHM_VERSION};
use crate::error::UchikomiError;
use crate::table::{ascending, TextMap};
use crate::text::{joined3, views};
use vstd::prelude::*;

verus! {

/// Whether a character is a hexadecimal digit.
pub open spec fn is_hex_digit(c: char) -> bool {
    '0' <= c <= '9' || 'a' <= c <= 'f' || 'A' <= c <= 'F'
}

/// A hexadecimal digit in lower case.
pub open spec fn lower_digit(c: char) -> char {
    if 'A' <= c <= 'F' {
        (c as int + 32) as char
    } else {
        c
    }
}

/// Whether a text is a commit identifier, or the start of one: up to 40 hexadecimal
/// digits.
pub open spec fn is_oid(text: Seq<char>) -> bool {
    &&& 1 <= text.len() <= 40
    &&& forall|i: int| 0 <= i < text.len() ==> is_hex_digit(#[trigger] text[i])
}

/// A commit identifier in full: in lower case, with zeros for the digits that are
/// not given.
pub open spec fn full_oid(text: Seq<char>) -> Seq<char> {
    Seq::new(
        40,
        |i: int|
            if i < text.len() {
                lower_digit(text[i])
            } else {
                '0'
            },
    )
}

/// What `git2` says of a text that is no commit identifier.
pub uninterp spec fn oid_error(text: Seq<char>) -> Seq<char>;

/// The commit identifier that a text stands for, or what is said of a text that
/// stands for none.
pub open spec fn oid_of(text: Seq<char>) -> Result<Seq<char>, Seq<char>> {
    if is_oid(text) {
        Ok(full_oid(text))
    } else {
        Err(oid_error(text))
    }
}

/// `git2::Oid::from_str`: it reads one to 40 hexadecimal digits, in either case, as
/// the first digits of an identifier whose other digits are zero. Printed, the
/// identifier has 40 digits in lower case. Of any other text it gives an error,
/// whose words depend on the text alone.
#[verifier::external_body]
fn parse_oid(text: &str) -> (r: Result<String, String>)
    ensures
        match r {
            Ok(oid) => is_oid(text@) && oid@ == full_oid(text@),
            Err(err) => !is_oid(text@) && err@ == oid_error(text@),
        },
{
    git2::Oid::from_str(text).map(|oid| oid.to_string()).map_err(|err| err.to_string())
}

/// What is to be analyzed.
#[derive(Debug)]
pub struct GitAnalysisContext {
    pub repo_path: String,
    pub branch: String,
    pub head_oid: String,
}

/// The histories of all files, and how they came about.
pub struct GitMetricsResult {
    pub cache: TextMap<GitCacheEntry>,
    pub metadata: GitCacheMetadata,
    pub cache_reset: bool,
    pub processed_commits: usize,
    pub partial: bool,
    pub warnings: Vec<String>,
}

/// What to do next for the history.
#[derive(Debug)]
pub enum HistoryStep {
    /// Nothing: what was kept is up to date.
    Finished,
    /// Find out whether this commit is an ancestor of the current one.
    CheckAncestor(String),
    /// Read the commits behind this one.
    WalkBehind(String),
    /// Read all commits.
    WalkAll,
}

/// Whether a kept history was counted in the same way: by the same rules, in the
/// same repository, on the same branch, at some commit, with the same patterns.
pub open spec fn is_compatible(
    metadata: Option<GitCacheMetadata>,
    repo_path: Seq<char>,
    branch: Seq<char>,
    patterns_key: Seq<char>,
) -> bool {
    match metadata {
        Some(m) => {
            &&& m.algorithm_version == GIT_ALGORITHM_VERSION
            &&& m.repository_path@ == repo_path
            &&& m.branch@ == branch
            &&& m.head_oid@.len() > 0
            &&& m.bug_fix_patterns_hash@ == patterns_key
        },
        None => false,
    }
}

/// Whether the metadata are those of an analysis.
pub open spec fn is_metadata(
    m: GitCacheMetadata,
    context: GitAnalysisContext,
    patterns_key: Seq<char>,
) -> bool {
    &&& m.repository_path@ == context.repo_path@
    &&& m.branch@ == context.branch@
    &&& m.head_oid@ == context.head_oid@
    &&& m.algorithm_version == GIT_ALGORITHM_VERSION
    &&& m.bug_fix_patterns_hash@ == patterns_key
}

/// What is said of a kept commit that cannot be read.
pub open spec fn invalid_commit(oid: Seq<char>, err: Seq<char>) -> Seq<char> {
    "Cached Git commit '"@ + oid + "' is invalid: "@ + err + ". Git cache was rebuilt."@
}

/// What is said of a kept commit that the current one does not descend from.
pub open spec fn not_ancestor(oid: Seq<char>) -> Seq<char> {
    "Cached Git commit "@ + oid + " is not an ancestor of HEAD. Git cache was rebuilt."@
}

/// What is said of a kept commit that cannot be left out.
pub open spec fn hide_failed(oid: Seq<char>, err: Seq<char>) -> Seq<char> {
    "Failed to hide cached Git commit "@ + oid + ": "@ + err + ". Git cache was rebuilt."@
}

/// Whether nothing was read yet.
pub open spec fn is_fresh(r: GitMetricsResult) -> bool {
    r.processed_commits == 0 && !r.partial
}

/// How reading the history starts: with what is kept, and what to do next.
pub open spec fn is_start(
    r: Result<(GitMetricsResult, HistoryStep), UchikomiError>,
    git_cache: TextMap<GitCacheEntry>,
    compatible: bool,
    last_commit: Option<Seq<char>>,
    head: Seq<char>,
) -> bool {
    if !compatible || last_commit is None {
        r matches Ok((result, step)) && is_fresh(result) && step is WalkAll && result.cache@
            == Map::<Seq<char>, GitCacheEntry>::empty() && result.cache_reset == (!compatible
            || git_cache.keys().len() > 0) && result.warnings@.len() == 0
    } else {
        match (oid_of(head), oid_of(last_commit->0)) {
            (Err(text), _) => r matches Err(e) && e is GitError && e.cause() == text,
            (Ok(current), Ok(kept)) => r matches Ok((result, step)) && is_fresh(result)
                && result.cache == git_cache && !result.cache_reset && result.warnings@.len() == 0
                && if kept == current {
                step is Finished
            } else {
                step matches HistoryStep::CheckAncestor(oid) && oid@ == kept
            },
            (Ok(_), Err(text)) => r matches Ok((result, step)) && is_fresh(result)
                && step is WalkAll && result.cache@ == Map::<Seq<char>, GitCacheEntry>::empty()
                && result.cache_reset && views(result.warnings@) == seq![
                invalid_commit(last_commit->0, text),
            ],
        }
    }
}

/// Whether a kept history was dropped for a reason that is told.
pub open spec fn is_dropped(
    after: GitMetricsResult,
    before: GitMetricsResult,
    warning: Seq<char>,
) -> bool {
    &&& after.cache@ == Map::<Seq<char>, GitCacheEntry>::empty()
    &&& after.cache_reset
    &&& views(after.warnings@) == views(before.warnings@).push(warning)
    &&& after.metadata == before.metadata
    &&& after.processed_commits == before.processed_commits
    &&& after.partial == before.partial
}

impl GitMetricsResult {
    /// Drops the kept history.
    fn drop_cache(&mut self, warning: String)
        ensures
            is_dropped(*final(self), *old(self), warning@),
    {
        let ghost before = self.warnings@;
        let ghost said = warning@;
        self.cache = TextMap::new();
        self.cache_reset = true;
        self.warnings.push(warning);
        assert(views(self.warnings@) =~= views(before).push(said));
    }
}

impl GitAnalyzer {
    /// Tells whether a kept history was counted in the same way.
    pub fn is_git_cache_compatible(
        metadata: &Option<GitCacheMetadata>,
        repo_path: &str,
        branch: &str,
        patterns: &BugFixPatterns,
    ) -> (r: bool)
        ensures
            r == is_compatible(*metadata, repo_path@, branch@, patterns.key()),
    {
        match metadata {
            Some(m) => m.algorithm_version == GIT_ALGORITHM_VERSION
                && m.repository_path.as_str().eq(repo_path) && m.branch.as_str().eq(branch)
                && !m.head_oid.as_str().is_empty() && m.bug_fix_patterns_hash.as_str().eq(
                patterns.cache_key(),
            ),
            None => false,
        }
    }

    /// Starts reading the history: settles what of the kept history can be used.
    pub fn start_history(
        git_cache: TextMap<GitCacheEntry>,
        git_metadata: &Option<GitCacheMetadata>,
        last_commit_oid: &Option<String>,
        context: &GitAnalysisContext,
        patterns: &BugFixPatterns,
    ) -> (r: Result<(GitMetricsResult, HistoryStep), UchikomiError>)
        ensures
            r matches Ok((result, _)) ==> is_metadata(result.metadata, *context, patterns.key()),
            is_start(
                r,
                git_cache,
                is_compatible(
                    *git_metadata,
                    context.repo_path@,
                    context.branch@,
                    patterns.key(),
                ),
                match *last_commit_oid {
                    Some(oid) => Some(oid@),
                    None => None,
                },
                context.head_oid@,
            ),
    {
        let compatible = Self::is_git_cache_compatible(
            git_metadata,
            context.repo_path.as_str(),
            context.branch.as_str(),
            patterns,
        );
        let known: usize = git_cache.len();
        let mut result = GitMetricsResult {
            cache: git_cache,
            metadata: GitCacheMetadata {
                repository_path: context.repo_path.clone(),
                branch: context.branch.clone(),
                head_oid: context.head_oid.clone(),
                algorithm_version: GIT_ALGORITHM_VERSION,
                bug_fix_patterns_hash: patterns.cache_key().to_string(),
            },
            cache_reset: false,
            processed_commits: 0,
            partial: false,
            warnings: Vec::new(),
        };
        let last = match last_commit_oid {
            Some(oid) => if compatible {
                Some(oid)
            } else {
                None
            },
            None => None,
        };
        match last {
            None => {
                result.cache = TextMap::new();
                result.cache_reset = !compatible || known > 0;
                Ok((result, HistoryStep::WalkAll))
            },
            Some(oid) => {
                let head = parse_oid(context.head_oid.as_str());
                let kept = parse_oid(oid.as_str());
                let r = Self::resume_history(result, oid.as_str(), head, kept);
                proof {
                    if r is Ok && kept is Err {
                        assert(views((r->Ok_0).0.warnings@) =~= seq![
                            invalid_commit(oid@, kept->Err_0@),
                        ]);
                    }
                }
                r
            },
        }
    }

    /// Goes on from a kept history once the current commit and the kept one, which is
    /// written as `oid`, are read.
    pub fn resume_history(
        result: GitMetricsResult,
        oid: &str,
        head: Result<String, String>,
        kept: Result<String, String>,
    ) -> (r: Result<(GitMetricsResult, HistoryStep), UchikomiError>)
        ensures
            match (head, kept) {
                (Err(text), _) => r matches Err(e) && e is GitError && e.cause() == text@,
                (Ok(current), Ok(known)) => r matches Ok((after, step)) && after == result
                    && if known@ == current@ {
                    step is Finished
                } else {
                    step == HistoryStep::CheckAncestor(known)
                },
                (Ok(_), Err(text)) => r matches Ok((after, step)) && is_dropped(
                    after,
                    result,
                    invalid_commit(oid@, text@),
                ) && step is WalkAll,
            },
    {
        let mut result = result;
        let current = match head {
            Ok(current) => current,
            Err(err) => {
                return Err(UchikomiError::GitError(err));
            },
        };
        match kept {
            Ok(known) => {
                if known.as_str().eq(current.as_str()) {
                    Ok((result, HistoryStep::Finished))
                } else {
                    Ok((result, HistoryStep::CheckAncestor(known)))
                }
            },
            Err(err) => {
                let start = joined3("Cached Git commit '", oid, "' is invalid: ");
                result.drop_cache(
                    joined3(start.as_str(), err.as_str(), ". Git cache was rebuilt."),
                );
                Ok((result, HistoryStep::WalkAll))
            },
        }
    }

    /// Goes on once it is known whether the kept commit is an ancestor of the
    /// current one.
    pub fn ancestor_checked(result: &mut GitMetricsResult, oid: String, is_ancestor: bool) -> (step:
        HistoryStep)
        ensures
            if is_ancestor {
                *final(result) == *old(result) && step == HistoryStep::WalkBehind(oid)
            } else {
                is_dropped(*final(result), *old(result), not_ancestor(oid@)) && step is WalkAll
            },
    {
        if is_ancestor {
            HistoryStep::WalkBehind(oid)
        } else {
            result.drop_cache(
                joined3(
                    "Cached Git commit ",
                    oid.as_str(),
                    " is not an ancestor of HEAD. Git cache was rebuilt.",
                ),
            );
            HistoryStep::WalkAll
        }
    }

    /// Goes on where the kept commit cannot be left out: everything is read again.
    pub fn hiding_failed(result: &mut GitMetricsResult, oid: &str, err: &str)
        ensures
            is_dropped(*final(result), *old(result), hide_failed(oid@, err@)),
    {
        let start = joined3("Failed to hide cached Git commit ", oid, ": ");
        result.drop_cache(joined3(start.as_str(), err, ". Git cache was rebuilt."));
    }

    /// Adds what the commits that were read say to what is kept, and carries the
    /// histories of renamed files over.
    pub fn finish_history(result: &mut GitMetricsResult, new_metrics: GitBatchMetrics)
        ensures
            exists|keys: Seq<Seq<char>>|
                is_finished(*final(result), *old(result), new_metrics, keys),
    {
        let mut warnings = new_metrics.warnings;
        result.processed_commits = new_metrics.processed_commits;
        result.partial = new_metrics.partial;
        result.warnings.append(&mut warnings);
        let ghost kept = histories(result.cache@);
        Self::merge_git_cache(&mut result.cache, new_metrics.files);
        let ghost keys = result.cache.keys();
        let _known = result.cache.len();
        proof {
            lemma_keys_cover(result.cache);
        }
        Self::apply_rename_aliases(&mut result.cache, &new_metrics.renames);
        assert(is_finished(*result, *old(result), new_metrics, keys));
    }
}

/// Whether the commits that were read are added to what was kept, and the
/// histories are carried over to current names, file by file in this order.
pub open spec fn is_finished(
    after: GitMetricsResult,
    before: GitMetricsResult,
    new_metrics: GitBatchMetrics,
    keys: Seq<Seq<char>>,
) -> bool {
    let all = merged_histories(histories(before.cache@), histories(new_metrics.files@));
    &&& after.processed_commits == new_metrics.processed_commits
    &&& after.partial == new_metrics.partial
    &&& after.warnings@ == before.warnings@ + new_metrics.warnings@
    &&& after.cache_reset == before.cache_reset
    &&& after.metadata == before.metadata
    &&& ascending(keys)
    &&& keys.to_set() == all.dom()
    &&& histories(after.cache@) == carried_over(
        all,
        keys,
        alias_map(new_metrics.renames@),
        keys.len() as int,
    )
}

/// A kept history is never used in another repository, on another branch, with other
/// patterns or by other rules: all commits are read anew.
pub proof fn lemma_shifted_history_is_read_anew(
    r: Result<(GitMetricsResult, HistoryStep), UchikomiError>,
    git_cache: TextMap<GitCacheEntry>,
    metadata: GitCacheMetadata,
    repo_path: Seq<char>,
    branch: Seq<char>,
    patterns_key: Seq<char>,
    last_commit: Option<Seq<char>>,
    head: Seq<char>,
)
    requires
        metadata.repository_path@ != repo_path || metadata.branch@ != branch
            || metadata.bug_fix_patterns_hash@ != patterns_key || metadata.algorithm_version
            != GIT_ALGORITHM_VERSION,
        is_start(
            r,
            git_cache,
            is_compatible(Some(metadata), repo_path, branch, patterns_key),
            last_commit,
            head,
        ),
    ensures
        r is Ok,
        (r->Ok_0).0.cache@ == Map::<Seq<char>, GitCacheEntry>::empty(),
        (r->Ok_0).0.cache_reset,
        (r->Ok_0).1 is WalkAll,
{
}

proof fn lemma_keys_cover(map: TextMap<GitCacheEntry>)
    ensures
        map.keys().to_set() == histories(map@).dom(),
{
    assert(map.keys().to_set() =~= histories(map@).dom());
}

} // verus!
