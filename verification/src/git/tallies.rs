//! What the commits of a history add up to for each file.

use super::batch::{any_failed, are_read_histories, failures, is_step, read_commits, CommitOutcome};
use super::commits::{are_contributions, content_ranges, CommitRecord};
use super::history::{joined_history, merged_histories};
use super::patterns::{
    default_patterns, first_error, pattern_error, pattern_matches, usable, BugFixPatterns,
};
use super::plan::is_compatible;
use super::recorded::is_by;
use crate::cache::{FileHistory, GitCacheMetadata};
use crate::error::UchikomiError;
use crate::text::views;
use vstd::prelude::*;

verus! {

/// A count as far as it can be held.
pub open spec fn as_far_as_held(n: nat) -> nat {
    if n <= usize::MAX {
        n
    } else {
        usize::MAX as nat
    }
}

/// Whether a commit could be read.
pub open spec fn was_read(commits: Seq<CommitOutcome>, k: int) -> bool {
    0 <= k < commits.len() && commits[k].record is Ok
}

/// Whether a commit could be read and changes a file.
pub open spec fn touches(commits: Seq<CommitOutcome>, k: int, path: Seq<char>) -> bool {
    was_read(commits, k) && content_ranges(commits[k].record->Ok_0.content).contains_key(path)
}

/// Whether one of the patterns matches the message of a commit.
pub open spec fn is_fix(commit: CommitRecord, patterns: BugFixPatterns) -> bool {
    commit.message is Some && exists|i: int|
        0 <= i < patterns.sources().len() && pattern_matches(
            #[trigger] patterns.sources()[i],
            commit.message->0@,
        )
}

/// The commits that change a file.
pub open spec fn touching(commits: Seq<CommitOutcome>, path: Seq<char>) -> Set<int> {
    Set::new(|k: int| touches(commits, k, path))
}

/// Those of them that fix a bug.
pub open spec fn fixing(
    commits: Seq<CommitOutcome>,
    path: Seq<char>,
    patterns: BugFixPatterns,
) -> Set<int> {
    Set::new(
        |k: int| touches(commits, k, path) && is_fix(commits[k].record->Ok_0, patterns),
    )
}

proof fn lemma_before(commits: Seq<CommitOutcome>, path: Seq<char>, patterns: BugFixPatterns)
    requires
        commits.len() > 0,
    ensures
        ({
            let before = commits.drop_last();
            let n = before.len() as int;
            let commit = commits.last().record->Ok_0;
            let here = touches(commits, n, path);
            &&& here <==> commits.last().record is Ok && content_ranges(
                commit.content,
            ).contains_key(path)
            &&& touching(commits, path) =~= if here {
                touching(before, path).insert(n)
            } else {
                touching(before, path)
            }
            &&& fixing(commits, path, patterns) =~= if here && is_fix(commit, patterns) {
                fixing(before, path, patterns).insert(n)
            } else {
                fixing(before, path, patterns)
            }
            &&& !touching(before, path).contains(n)
            &&& forall|k: int| k < n ==> touches(before, k, path) == #[trigger] touches(
                commits,
                k,
                path,
            )
        }),
{
    let before = commits.drop_last();
    assert forall|k: int| 0 <= k < before.len() implies before[k] == commits[k] by {}
}

/// What all commits that could be read tell of a file: how many of them change it, how
/// many of those fix a bug, and by whom they are. A file is known exactly if one of them
/// changes it.
pub proof fn lemma_commits_are_tallied(
    all: Map<Seq<char>, FileHistory>,
    commits: Seq<CommitOutcome>,
    patterns: BugFixPatterns,
    path: Seq<char>,
)
    requires
        are_read_histories(all, commits, patterns),
    ensures
        touching(commits, path).finite(),
        fixing(commits, path, patterns).finite(),
        all.contains_key(path) <==> exists|k: int| #[trigger] touches(commits, k, path),
        all.contains_key(path) ==> {
            let h = all[path];
            &&& h.times_modified == as_far_as_held(touching(commits, path).len())
            &&& h.bug_fix_commits == as_far_as_held(fixing(commits, path, patterns).len())
            &&& forall|a: Seq<char>| #[trigger]
                h.authors.contains(a) <==> exists|k: int| #[trigger]
                    touches(commits, k, path) && is_by(commits[k].record->Ok_0, a)
        },
    decreases commits.len(),
{
    if commits.len() == 0 {
        assert(touching(commits, path) =~= Set::<int>::empty());
        assert(fixing(commits, path, patterns) =~= Set::<int>::empty());
    } else {
        let had = commits.drop_last();
        let n = had.len() as int;
        lemma_before(commits, path, patterns);
        match commits.last().record {
            Err(_) => {
                lemma_commits_are_tallied(all, had, patterns, path);
                lemma_touched_again(commits, path);
                if all.contains_key(path) {
                    lemma_authors_again(commits, path, all[path].authors);
                }
            },
            Ok(commit) => {
                let (before, own) = choose|
                    before: Map<Seq<char>, FileHistory>,
                    own: Map<Seq<char>, FileHistory>,
                | #[trigger]
                    is_step(all, before, own, commit, patterns) && are_read_histories(
                        before,
                        had,
                        patterns,
                    );
                lemma_commits_are_tallied(before, had, patterns, path);
                assert(commit.fixes(patterns) == is_fix(commit, patterns));
                assert(own.contains_key(path) <==> content_ranges(commit.content).contains_key(
                    path,
                )) by {
                    assert(own.dom() == content_ranges(commit.content).dom());
                    assert(own.dom().contains(path) == content_ranges(
                        commit.content,
                    ).dom().contains(path));
                }
                lemma_tally_step(all, before, own, commits, patterns, path);
            },
        }
    }
}

proof fn lemma_touched_again(commits: Seq<CommitOutcome>, path: Seq<char>)
    requires
        commits.len() > 0,
        !touches(commits, commits.len() - 1, path),
    ensures
        (exists|k: int| #[trigger] touches(commits, k, path)) <==> exists|k: int| #[trigger]
            touches(commits.drop_last(), k, path),
{
    let had = commits.drop_last();
    if exists|k: int| #[trigger] touches(commits, k, path) {
        let k = choose|k: int| #[trigger] touches(commits, k, path);
        assert(had[k] == commits[k]);
        assert(touches(had, k, path));
    }
    if exists|k: int| #[trigger] touches(had, k, path) {
        let k = choose|k: int| #[trigger] touches(had, k, path);
        assert(had[k] == commits[k]);
        assert(touches(commits, k, path));
    }
}

proof fn lemma_authors_again(
    commits: Seq<CommitOutcome>,
    path: Seq<char>,
    authors: Set<Seq<char>>,
)
    requires
        commits.len() > 0,
        !touches(commits, commits.len() - 1, path),
        forall|a: Seq<char>| #[trigger]
            authors.contains(a) <==> exists|k: int| #[trigger]
                touches(commits.drop_last(), k, path) && is_by(
                    commits.drop_last()[k].record->Ok_0,
                    a,
                ),
    ensures
        forall|a: Seq<char>| #[trigger]
            authors.contains(a) <==> exists|k: int| #[trigger]
                touches(commits, k, path) && is_by(commits[k].record->Ok_0, a),
{
    let had = commits.drop_last();
    assert forall|a: Seq<char>| #[trigger] authors.contains(a) <==> exists|k: int| #[trigger]
        touches(commits, k, path) && is_by(commits[k].record->Ok_0, a) by {
        if authors.contains(a) {
            let k = choose|k: int| #[trigger]
                touches(had, k, path) && is_by(had[k].record->Ok_0, a);
            assert(had[k] == commits[k]);
            assert(touches(commits, k, path));
        }
        if exists|k: int| #[trigger]
            touches(commits, k, path) && is_by(commits[k].record->Ok_0, a) {
            let k = choose|k: int| #[trigger]
                touches(commits, k, path) && is_by(commits[k].record->Ok_0, a);
            assert(had[k] == commits[k]);
            assert(touches(had, k, path));
        }
    }
}

proof fn lemma_tally_step(
    all: Map<Seq<char>, FileHistory>,
    before: Map<Seq<char>, FileHistory>,
    own: Map<Seq<char>, FileHistory>,
    commits: Seq<CommitOutcome>,
    patterns: BugFixPatterns,
    path: Seq<char>,
)
    requires
        commits.len() > 0,
        commits.last().record is Ok,
        are_contributions(own, commits.last().record->Ok_0, is_fix(
            commits.last().record->Ok_0,
            patterns,
        )),
        own.contains_key(path) <==> content_ranges(
            commits.last().record->Ok_0.content,
        ).contains_key(path),
        all == merged_histories(before, own),
        touching(commits.drop_last(), path).finite(),
        fixing(commits.drop_last(), path, patterns).finite(),
        before.contains_key(path) <==> exists|k: int| #[trigger]
            touches(commits.drop_last(), k, path),
        before.contains_key(path) ==> {
            let h = before[path];
            &&& h.times_modified == as_far_as_held(touching(commits.drop_last(), path).len())
            &&& h.bug_fix_commits == as_far_as_held(
                fixing(commits.drop_last(), path, patterns).len(),
            )
            &&& forall|a: Seq<char>| #[trigger]
                h.authors.contains(a) <==> exists|k: int| #[trigger]
                    touches(commits.drop_last(), k, path) && is_by(
                        commits.drop_last()[k].record->Ok_0,
                        a,
                    )
        },
    ensures
        touching(commits, path).finite(),
        fixing(commits, path, patterns).finite(),
        all.contains_key(path) <==> exists|k: int| #[trigger] touches(commits, k, path),
        all.contains_key(path) ==> {
            let h = all[path];
            &&& h.times_modified == as_far_as_held(touching(commits, path).len())
            &&& h.bug_fix_commits == as_far_as_held(fixing(commits, path, patterns).len())
            &&& forall|a: Seq<char>| #[trigger]
                h.authors.contains(a) <==> exists|k: int| #[trigger]
                    touches(commits, k, path) && is_by(commits[k].record->Ok_0, a)
        },
{
    let had = commits.drop_last();
    let n = had.len() as int;
    let commit = commits.last().record->Ok_0;
    lemma_before(commits, path, patterns);
    if !own.contains_key(path) {
        lemma_touched_again(commits, path);
        if before.contains_key(path) {
            super::history::lemma_join_empty(before[path]);
            lemma_authors_again(commits, path, before[path].authors);
            assert(all[path].authors =~= before[path].authors);
        }
    } else {
        assert(touches(commits, n, path));
        if !before.contains_key(path) {
            assert forall|k: int| !touching(had, path).contains(k) by {
                assert(!touches(had, k, path));
            }
            assert(touching(had, path) =~= Set::<int>::empty());
            assert forall|k: int| !fixing(had, path, patterns).contains(k) by {
                assert(!touches(had, k, path));
            }
            assert(fixing(had, path, patterns) =~= Set::<int>::empty());
        }
        let h = all[path];
        assert forall|a: Seq<char>| #[trigger] h.authors.contains(a) <==> exists|k: int| #[trigger]
            touches(commits, k, path) && is_by(commits[k].record->Ok_0, a) by {
            if own[path].authors.contains(a) {
                assert(is_by(commits[n].record->Ok_0, a));
            }
            if before.contains_key(path) && before[path].authors.contains(a) {
                let k = choose|k: int| #[trigger]
                    touches(had, k, path) && is_by(had[k].record->Ok_0, a);
                assert(had[k] == commits[k]);
                assert(touches(commits, k, path));
            }
            if exists|k: int| #[trigger]
                touches(commits, k, path) && is_by(commits[k].record->Ok_0, a) {
                let k = choose|k: int| #[trigger]
                    touches(commits, k, path) && is_by(commits[k].record->Ok_0, a);
                if k < n {
                    assert(had[k] == commits[k]);
                    assert(touches(had, k, path));
                    assert(before.contains_key(path));
                    assert(before[path].authors.contains(a));
                }
            }
        }
    }
}

/// Two histories of a file add up: the counts as far as they can be held, the authors of
/// both, and the changes of both, one history after the other.
pub proof fn lemma_histories_add_up(a: FileHistory, b: FileHistory)
    ensures
        ({
            let h = joined_history(a, b);
            &&& h.times_modified == as_far_as_held(a.times_modified + b.times_modified)
            &&& h.bug_fix_commits == as_far_as_held(a.bug_fix_commits + b.bug_fix_commits)
            &&& forall|x: Seq<char>| #[trigger]
                h.authors.contains(x) <==> a.authors.contains(x) || b.authors.contains(x)
            &&& h.line_changes.len() == a.line_changes.len() + b.line_changes.len()
            &&& forall|i: int|
                0 <= i < a.line_changes.len() ==> #[trigger] h.line_changes[i] == a.line_changes[i]
            &&& forall|i: int|
                0 <= i < b.line_changes.len() ==> h.line_changes[a.line_changes.len() + i]
                    == #[trigger] b.line_changes[i]
        }),
{
}

/// The commits that could be read are counted, and those that could not be are told one
/// by one; the history is partial exactly if there are any.
pub proof fn lemma_unread_commits_are_told(commits: Seq<CommitOutcome>) -> (places: Seq<int>)
    ensures
        read_commits(commits) == as_far_as_held(Set::new(|k: int| was_read(commits, k)).len()),
        any_failed(commits) <==> exists|k: int|
            0 <= k < commits.len() && (#[trigger] commits[k]).record is Err,
        places.len() == failures(commits).len(),
        forall|i: int, j: int|
            #![trigger places[i], places[j]]
            0 <= i < j < places.len() ==> places[i] < places[j],
        forall|i: int|
            #![trigger places[i]]
            0 <= i < places.len() ==> 0 <= places[i] < commits.len()
                && commits[places[i]].record is Err && failures(commits)[i]
                == "Failed to process commit "@ + commits[places[i]].id@ + ": "@
                + commits[places[i]].record->Err_0@,
        forall|k: int|
            0 <= k < commits.len() && (#[trigger] commits[k]).record is Err ==> places.contains(k),
        Set::new(|k: int| was_read(commits, k)).finite(),
    decreases commits.len(),
{
    let read = Set::new(|k: int| was_read(commits, k));
    if commits.len() == 0 {
        assert(read =~= Set::<int>::empty());
        Seq::empty()
    } else {
        let had = commits.drop_last();
        let n = had.len() as int;
        let before = lemma_unread_commits_are_told(had);
        let old_read = Set::new(|k: int| was_read(had, k));
        assert forall|k: int| 0 <= k < n implies had[k] == commits[k] by {}
        if any_failed(had) {
            let k = choose|k: int| 0 <= k < had.len() && (#[trigger] had[k]).record is Err;
            assert(commits[k].record is Err);
        }
        if commits.last().record is Ok {
            assert(read =~= old_read.insert(n));
            assert forall|k: int| 0 <= k < commits.len() && (
            #[trigger] commits[k]).record is Err implies before.contains(k) && any_failed(
                commits,
            ) by {
                assert(had[k].record is Err);
            }
            before
        } else {
            assert(read =~= old_read);
            assert(commits[n].record is Err);
            let places = before.push(n);
            assert forall|k: int| 0 <= k < commits.len() && (
            #[trigger] commits[k]).record is Err implies places.contains(k) by {
                if k < n {
                    assert(had[k].record is Err);
                    let i = choose|i: int| 0 <= i < before.len() && before[i] == k;
                    assert(places[i] == k);
                } else {
                    assert(places[n_of(before)] == k);
                }
            }
            places
        }
    }
}

spec fn n_of(s: Seq<int>) -> int {
    s.len() as int
}

/// Where no patterns are given, a message is that of a bug fix if it speaks of a fix, a
/// bug, an issue, of closing or of resolving.
pub proof fn lemma_default_patterns_tell_fixes(text: Seq<char>)
    requires
        forall|p: Seq<char>| default_patterns().contains(p) ==> #[trigger] pattern_error(p) is None,
    ensures
        super::patterns::any_matches(usable(default_patterns()), text) <==> pattern_matches(
            "(?i)\\bfix(?:e[sd])?\\b"@,
            text,
        ) || pattern_matches("(?i)\\bbug(?:s)?\\b"@, text) || pattern_matches(
            "(?i)\\bissue(?:s)?\\b"@,
            text,
        ) || pattern_matches("(?i)\\bclos(?:e[sd]?|ing)\\b"@, text) || pattern_matches(
            "(?i)\\bresolv(?:e[sd]?|ing)\\b"@,
            text,
        ),
{
    let all = default_patterns();
    assert forall|i: int| 0 <= i < all.len() implies pattern_error(#[trigger] all[i]) is None by {
        assert(all.contains(all[i]));
    }
    lemma_all_usable(all);
    assert(all[0] == "(?i)\\bfix(?:e[sd])?\\b"@);
    assert(all[1] == "(?i)\\bbug(?:s)?\\b"@);
    assert(all[2] == "(?i)\\bissue(?:s)?\\b"@);
    assert(all[3] == "(?i)\\bclos(?:e[sd]?|ing)\\b"@);
    assert(all[4] == "(?i)\\bresolv(?:e[sd]?|ing)\\b"@);
    assert(all.len() == 5);
}

/// Patterns that are all right are all used.
pub proof fn lemma_all_usable(patterns: Seq<Seq<char>>)
    requires
        forall|i: int| 0 <= i < patterns.len() ==> pattern_error(#[trigger] patterns[i]) is None,
    ensures
        usable(patterns) == patterns,
    decreases patterns.len(),
{
    if patterns.len() > 0 {
        let had = patterns.drop_last();
        assert forall|i: int| 0 <= i < had.len() implies pattern_error(
            #[trigger] had[i],
        ) is None by {
            assert(had[i] == patterns[i]);
        }
        lemma_all_usable(had);
        assert(patterns.last() == patterns[patterns.len() - 1]);
        assert(usable(patterns) =~= patterns);
    } else {
        assert(usable(patterns) =~= patterns);
    }
}

/// Patterns that are given are all used or refused together: with one that is wrong none
/// is used, and what is wrong with the first such is told.
pub proof fn lemma_given_patterns_are_used(
    patterns: Vec<String>,
    r: Result<BugFixPatterns, UchikomiError>,
)
    requires
        call_ensures(BugFixPatterns::from_patterns, (&patterns,), r),
        patterns@.len() > 0,
    ensures
        r is Ok <==> forall|i: int|
            0 <= i < patterns@.len() ==> pattern_error((#[trigger] patterns@[i])@) is None,
        r is Ok ==> r->Ok_0.sources().len() == patterns@.len() && forall|i: int|
            0 <= i < patterns@.len() ==> #[trigger] r->Ok_0.sources()[i] == patterns@[i]@,
        r is Err ==> exists|i: int|
            0 <= i < patterns@.len() && pattern_error((#[trigger] patterns@[i])@) == Some(
                r->Err_0.cause(),
            ) && forall|j: int|
                0 <= j < i ==> pattern_error((#[trigger] patterns@[j])@) is None,
{
    let all = views(patterns@);
    lemma_first_error(all);
    if r is Ok {
        assert forall|i: int| 0 <= i < patterns@.len() implies pattern_error(
            (#[trigger] patterns@[i])@,
        ) is None by {
            assert(all[i] == patterns@[i]@);
        }
    } else {
        let i = choose|i: int|
            0 <= i < all.len() && pattern_error(#[trigger] all[i]) == first_error(all)
                && forall|j: int| 0 <= j < i ==> pattern_error(#[trigger] all[j]) is None;
        assert(patterns@[i]@ == all[i]);
        assert forall|j: int| 0 <= j < i implies pattern_error(
            (#[trigger] patterns@[j])@,
        ) is None by {
            assert(all[j] == patterns@[j]@);
        }
    }
}

/// The first error is that of the first pattern that is wrong.
pub proof fn lemma_first_error(patterns: Seq<Seq<char>>)
    ensures
        first_error(patterns) is None ==> forall|i: int|
            0 <= i < patterns.len() ==> pattern_error(#[trigger] patterns[i]) is None,
        first_error(patterns) is Some ==> exists|i: int|
            0 <= i < patterns.len() && pattern_error(#[trigger] patterns[i]) == first_error(
                patterns,
            ) && forall|j: int| 0 <= j < i ==> pattern_error(#[trigger] patterns[j]) is None,
    decreases patterns.len(),
{
    if patterns.len() > 0 {
        let rest = patterns.drop_first();
        lemma_first_error(rest);
        if pattern_error(patterns[0]) is None {
            if first_error(patterns) is None {
                assert forall|i: int| 0 <= i < patterns.len() implies pattern_error(
                    #[trigger] patterns[i],
                ) is None by {
                    if i > 0 {
                        assert(rest[i - 1] == patterns[i]);
                    }
                }
            } else {
                let i = choose|i: int|
                    0 <= i < rest.len() && pattern_error(#[trigger] rest[i]) == first_error(rest)
                        && forall|j: int| 0 <= j < i ==> pattern_error(#[trigger] rest[j]) is None;
                assert(patterns[i + 1] == rest[i]);
                assert forall|j: int| 0 <= j < i + 1 implies pattern_error(
                    #[trigger] patterns[j],
                ) is None by {
                    if j > 0 {
                        assert(rest[j - 1] == patterns[j]);
                    }
                }
            }
        }
    }
}

/// A kept history is gone on with only if it was counted by the same rules, with the
/// same patterns, in the same repository and on the same branch, up to some commit.
pub proof fn lemma_history_is_not_mixed(
    m: GitCacheMetadata,
    repo_path: Seq<char>,
    branch: Seq<char>,
    patterns_key: Seq<char>,
)
    ensures
        m.algorithm_version != 2 ==> !is_compatible(Some(m), repo_path, branch, patterns_key),
        m.repository_path@ != repo_path ==> !is_compatible(
            Some(m),
            repo_path,
            branch,
            patterns_key,
        ),
        m.branch@ != branch ==> !is_compatible(Some(m), repo_path, branch, patterns_key),
        m.head_oid@.len() == 0 ==> !is_compatible(Some(m), repo_path, branch, patterns_key),
        m.bug_fix_patterns_hash@ != patterns_key ==> !is_compatible(
            Some(m),
            repo_path,
            branch,
            patterns_key,
        ),
        !is_compatible(None, repo_path, branch, patterns_key),
        m.algorithm_version == 2 && m.repository_path@ == repo_path && m.branch@ == branch
            && m.head_oid@.len() > 0 && m.bug_fix_patterns_hash@ == patterns_key
            ==> is_compatible(Some(m), repo_path, branch, patterns_key),
{
}

} // verus!
