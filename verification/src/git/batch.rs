//! Works through many commits.

use super::churn::GitAnalyzer;
use super::commits::{
    are_contributions, content_renames, pairs, CommitRecord, GitBatchMetrics,
};
use super::history::{
    add_counts, counts_fit, histories, lemma_join_empty, lemma_merge_associative, merged_histories,
    plus,
};
use super::patterns::BugFixPatterns;
use crate::cache::FileHistory;
use crate::table::TextMap;
use crate::text::{joined, joined3, views};
use vstd::prelude::*;

verus! {

/// A commit that was read, or the reason why it could not be.
#[derive(Debug)]
pub struct CommitOutcome {
    pub id: String,
    pub record: Result<CommitRecord, String>,
}

impl GitBatchMetrics {
    /// Nothing.
    pub fn empty() -> (m: GitBatchMetrics)
        ensures
            histories(m.files@) == Map::<Seq<char>, FileHistory>::empty(),
            m.files.keys() == Seq::<Seq<char>>::empty(),
            m.renames@ == Seq::<(String, String)>::empty(),
            m.processed_commits == 0,
            !m.partial,
            m.warnings@ == Seq::<String>::empty(),
    {
        let m = GitBatchMetrics {
            files: TextMap::new(),
            renames: Vec::new(),
            processed_commits: 0,
            partial: false,
            warnings: Vec::new(),
        };
        assert(histories(m.files@) =~= Map::<Seq<char>, FileHistory>::empty());
        m
    }

    /// What is left to say where a repository cannot be opened.
    pub fn unavailable(repo_path: &str, err: &str) -> (m: GitBatchMetrics)
        ensures
            histories(m.files@) == Map::<Seq<char>, FileHistory>::empty(),
            m.renames@ == Seq::<(String, String)>::empty(),
            m.processed_commits == 0,
            m.partial,
            views(m.warnings@) == seq!["Failed to open repository "@ + repo_path@ + ": "@ + err@],
    {
        let mut m = GitBatchMetrics::empty();
        let place = joined("Failed to open repository ", repo_path);
        let warning = joined3(place.as_str(), ": ", err);
        m.partial = true;
        m.warnings.push(warning);
        assert(views(m.warnings@) =~= seq!["Failed to open repository "@ + repo_path@ + ": "@
            + err@]);
        m
    }
}

/// How many commits could be read.
pub open spec fn read_commits(commits: Seq<CommitOutcome>) -> nat
    decreases commits.len(),
{
    if commits.len() == 0 {
        0
    } else {
        plus(
            read_commits(commits.drop_last()),
            if commits.last().record is Ok {
                1
            } else {
                0
            },
        )
    }
}

/// Whether a commit could not be read.
pub open spec fn any_failed(commits: Seq<CommitOutcome>) -> bool
    decreases commits.len(),
{
    commits.len() > 0 && (any_failed(commits.drop_last()) || commits.last().record is Err)
}

/// What is said of the commits that could not be read.
pub open spec fn failures(commits: Seq<CommitOutcome>) -> Seq<Seq<char>>
    decreases commits.len(),
{
    if commits.len() == 0 {
        seq![]
    } else {
        let before = failures(commits.drop_last());
        match commits.last().record {
            Ok(_) => before,
            Err(err) => before.push(
                "Failed to process commit "@ + commits.last().id@ + ": "@ + err@,
            ),
        }
    }
}

/// The renamings of the commits that could be read.
pub open spec fn read_renames(commits: Seq<CommitOutcome>) -> Seq<(Seq<char>, Seq<char>)>
    decreases commits.len(),
{
    if commits.len() == 0 {
        seq![]
    } else {
        let before = read_renames(commits.drop_last());
        match commits.last().record {
            Ok(commit) => before + content_renames(commit.content),
            Err(_) => before,
        }
    }
}

/// Whether these are the histories that the commits that could be read make up,
/// one after the other.
pub open spec fn are_read_histories(
    all: Map<Seq<char>, FileHistory>,
    commits: Seq<CommitOutcome>,
    patterns: BugFixPatterns,
) -> bool
    decreases commits.len(),
{
    if commits.len() == 0 {
        all == Map::<Seq<char>, FileHistory>::empty()
    } else {
        match commits.last().record {
            Ok(commit) => exists|
                before: Map<Seq<char>, FileHistory>,
                own: Map<Seq<char>, FileHistory>,
            | #[trigger]
                is_step(all, before, own, commit, patterns) && are_read_histories(
                    before,
                    commits.drop_last(),
                    patterns,
                ),
            Err(_) => are_read_histories(all, commits.drop_last(), patterns),
        }
    }
}

/// Whether a commit takes the histories from what they were to what they are by
/// adding its own.
pub open spec fn is_step(
    all: Map<Seq<char>, FileHistory>,
    before: Map<Seq<char>, FileHistory>,
    own: Map<Seq<char>, FileHistory>,
    commit: CommitRecord,
    patterns: BugFixPatterns,
) -> bool {
    are_contributions(own, commit, commit.fixes(patterns)) && all == merged_histories(before, own)
}

impl GitAnalyzer {
    /// Adds what some commits did to what others did.
    pub fn merge_batch_metrics(target: &mut GitBatchMetrics, source: GitBatchMetrics)
        ensures
            histories(final(target).files@) == merged_histories(
                histories(old(target).files@),
                histories(source.files@),
            ),
            final(target).renames@ == old(target).renames@ + source.renames@,
            final(target).processed_commits == plus(
                old(target).processed_commits as nat,
                source.processed_commits as nat,
            ),
            final(target).partial == (old(target).partial || source.partial),
            final(target).warnings@ == old(target).warnings@ + source.warnings@,
    {
        let mut renames = source.renames;
        let mut warnings = source.warnings;
        Self::merge_git_cache(&mut target.files, source.files);
        target.renames.append(&mut renames);
        target.processed_commits = add_counts(target.processed_commits, source.processed_commits);
        target.partial = target.partial || source.partial;
        target.warnings.append(&mut warnings);
    }

    /// Works through some commits in order.
    pub fn process_commit_chunk(
        commits: &Vec<CommitOutcome>,
        patterns: &BugFixPatterns,
    ) -> (m: GitBatchMetrics)
        ensures
            are_read_histories(histories(m.files@), commits@, *patterns),
            pairs(m.renames@) == read_renames(commits@),
            m.processed_commits == read_commits(commits@),
            m.partial == any_failed(commits@),
            views(m.warnings@) == failures(commits@),
    {
        let mut metrics = GitBatchMetrics::empty();
        assert(pairs(metrics.renames@) =~= Seq::<(Seq<char>, Seq<char>)>::empty());
        assert(views(metrics.warnings@) =~= Seq::<Seq<char>>::empty());
        for i in 0..commits.len()
            invariant
                are_read_histories(
                    histories(metrics.files@),
                    commits@.take(i as int),
                    *patterns,
                ),
                pairs(metrics.renames@) == read_renames(commits@.take(i as int)),
                metrics.processed_commits == read_commits(commits@.take(i as int)),
                metrics.partial == any_failed(commits@.take(i as int)),
                views(metrics.warnings@) == failures(commits@.take(i as int)),
        {
            let ghost done = commits@.take(i as int);
            let ghost next = commits@.take(i + 1);
            assert(next.drop_last() == done);
            let ghost before = metrics;
            match &commits[i].record {
                Ok(commit) => {
                    let own = Self::process_commit(commit, patterns);
                    let mut renames = own.renames;
                    let ghost added = renames@;
                    metrics.processed_commits = add_counts(metrics.processed_commits, 1);
                    let ghost all = histories(metrics.files@);
                    let ghost mine = histories(own.files@);
                    Self::merge_git_cache(&mut metrics.files, own.files);
                    metrics.renames.append(&mut renames);
                    proof {
                        assert(is_step(
                            histories(metrics.files@),
                            all,
                            mine,
                            *commit,
                            *patterns,
                        ));
                        assert(pairs(metrics.renames@) =~= pairs(before.renames@) + pairs(added));
                    }
                },
                Err(err) => {
                    metrics.partial = true;
                    let place = joined("Failed to process commit ", commits[i].id.as_str());
                    metrics.warnings.push(joined3(place.as_str(), ": ", err.as_str()));
                    proof {
                        assert(views(metrics.warnings@) =~= failures(next));
                    }
                },
            }
        }
        assert(commits@.take(commits.len() as int) == commits@);
        metrics
    }
}

/// Putting histories together keeps counts that can be counted.
proof fn lemma_merged_fit(a: Map<Seq<char>, FileHistory>, b: Map<Seq<char>, FileHistory>)
    ensures
        counts_fit(merged_histories(a, b)),
{
}

/// The histories that commits make up count what can be counted.
proof fn lemma_read_fit(
    all: Map<Seq<char>, FileHistory>,
    commits: Seq<CommitOutcome>,
    patterns: BugFixPatterns,
)
    requires
        are_read_histories(all, commits, patterns),
    ensures
        counts_fit(all),
    decreases commits.len(),
{
    if commits.len() > 0 {
        match commits.last().record {
            Ok(commit) => {
                let (before, own) = choose|
                    before: Map<Seq<char>, FileHistory>,
                    own: Map<Seq<char>, FileHistory>,
                | #[trigger]
                    is_step(all, before, own, commit, patterns) && are_read_histories(
                        before,
                        commits.drop_last(),
                        patterns,
                    );
                lemma_merged_fit(before, own);
            },
            Err(_) => {
                lemma_read_fit(all, commits.drop_last(), patterns);
            },
        }
    }
}

/// Commits can be worked through in parts, by different workers or at different
/// times: the histories of the parts, put together in order, are those of all the
/// commits.
pub proof fn lemma_parts_make_up_the_whole(
    first: Map<Seq<char>, FileHistory>,
    second: Map<Seq<char>, FileHistory>,
    earlier: Seq<CommitOutcome>,
    later: Seq<CommitOutcome>,
    patterns: BugFixPatterns,
)
    requires
        are_read_histories(first, earlier, patterns),
        are_read_histories(second, later, patterns),
    ensures
        are_read_histories(merged_histories(first, second), earlier + later, patterns),
    decreases later.len(),
{
    lemma_read_fit(first, earlier, patterns);
    lemma_read_fit(second, later, patterns);
    let whole = merged_histories(first, second);
    if later.len() == 0 {
        assert(earlier + later == earlier);
        assert forall|path: Seq<char>| first.contains_key(path) implies whole[path]
            == first[path] by {
            lemma_join_empty(first[path]);
        }
        assert(whole =~= first);
    } else {
        let rest = later.drop_last();
        assert((earlier + later).drop_last() == earlier + rest);
        assert((earlier + later).last() == later.last());
        match later.last().record {
            Ok(commit) => {
                let (before, own) = choose|
                    before: Map<Seq<char>, FileHistory>,
                    own: Map<Seq<char>, FileHistory>,
                | #[trigger]
                    is_step(second, before, own, commit, patterns) && are_read_histories(
                        before,
                        rest,
                        patterns,
                    );
                lemma_parts_make_up_the_whole(first, before, earlier, rest, patterns);
                lemma_read_fit(before, rest, patterns);
                lemma_merge_associative(first, before, own);
                assert(is_step(whole, merged_histories(first, before), own, commit, patterns));
            },
            Err(_) => {
                lemma_parts_make_up_the_whole(first, second, earlier, rest, patterns);
            },
        }
    }
}

} // verus!
