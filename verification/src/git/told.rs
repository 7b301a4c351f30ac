//! What histories tell, whatever the order in which their changes were read.

use super::batch::{are_read_histories, is_step, read_renames, CommitOutcome};
use super::churn::{all_occur_in, change_alike, occurs_in};
use super::commits::{
    are_contributions, content_ranges, is_change, is_contribution, pairs, whole_file,
    ChangedRange, CommitRecord, GitBatchMetrics,
};
use super::history::{histories, history_in, joined_history, merged_histories, plus};
use super::patterns::BugFixPatterns;
use super::plan::{is_finished, GitMetricsResult};
use super::renames::{alias_map, carried_over, lemma_unrenamed};
use crate::authors::changes_by;
use crate::cache::{FileHistory, GitCacheEntry, LineChange};
use vstd::multiset::Multiset;
use vstd::prelude::*;
use vstd::seq_lib::lemma_multiset_commutative;

verus! {

/// What a change tells.
#[verifier::ext_equal]
pub struct ToldChange {
    pub commit: Seq<char>,
    pub start_line: u32,
    pub end_line: u32,
    pub is_bug_fix: bool,
    pub author: Seq<char>,
    pub timestamp: i64,
}

/// What a change tells.
pub open spec fn told_change(c: LineChange) -> ToldChange {
    ToldChange {
        commit: c.commit@,
        start_line: c.start_line,
        end_line: c.end_line,
        is_bug_fix: c.is_bug_fix,
        author: c.author@,
        timestamp: c.timestamp,
    }
}

/// What some changes tell, one after the other.
pub open spec fn told_changes(changes: Seq<LineChange>) -> Seq<ToldChange> {
    Seq::new(changes.len(), |i: int| told_change(changes[i]))
}

/// What a history tells, whatever the order of its changes.
#[verifier::ext_equal]
pub struct Told {
    pub times_modified: nat,
    pub bug_fix_commits: nat,
    pub authors: Set<Seq<char>>,
    pub changes: Multiset<ToldChange>,
}

impl Told {
    /// Nothing.
    pub open spec fn nothing() -> Told {
        Told {
            times_modified: 0,
            bug_fix_commits: 0,
            authors: Set::empty(),
            changes: Multiset::empty(),
        }
    }

    /// This and more.
    pub open spec fn and(self, more: Told) -> Told {
        Told {
            times_modified: plus(self.times_modified, more.times_modified),
            bug_fix_commits: plus(self.bug_fix_commits, more.bug_fix_commits),
            authors: self.authors.union(more.authors),
            changes: self.changes.add(more.changes),
        }
    }

    /// Whether the counts are such as are held.
    pub open spec fn is_counted(self) -> bool {
        self.times_modified <= usize::MAX && self.bug_fix_commits <= usize::MAX
    }
}

/// What a history tells.
pub open spec fn told(h: FileHistory) -> Told {
    Told {
        times_modified: h.times_modified,
        bug_fix_commits: h.bug_fix_commits,
        authors: h.authors,
        changes: told_changes(h.line_changes).to_multiset(),
    }
}

/// Whether two entries tell the same, and name the authors in the same order.
pub open spec fn entry_agrees(a: GitCacheEntry, b: GitCacheEntry) -> bool {
    told(a@) == told(b@) && a.authors.list() == b.authors.list()
}

/// Whether the histories of the same files tell the same.
pub open spec fn histories_agree(
    a: Map<Seq<char>, FileHistory>,
    b: Map<Seq<char>, FileHistory>,
) -> bool {
    &&& a.dom() == b.dom()
    &&& forall|path: Seq<char>| #[trigger] a.contains_key(path) ==> told(a[path]) == told(b[path])
}

/// It matters neither in which groups nor in which order what is told is put
/// together.
proof fn lemma_told_and(a: Told, b: Told, c: Told)
    ensures
        a.and(b) == b.and(a),
        a.and(b).and(c) == a.and(b.and(c)),
        a.and(b).is_counted(),
        a.is_counted() ==> a.and(Told::nothing()) == a && Told::nothing().and(a) == a,
{
    assert(a.and(b) =~= b.and(a));
    assert(a.and(b).and(c) =~= a.and(b.and(c)));
    if a.is_counted() {
        assert(a.and(Told::nothing()) =~= a);
        assert(Told::nothing().and(a) =~= a);
    }
}

/// Joined histories tell what both tell.
proof fn lemma_joined_told(a: FileHistory, b: FileHistory)
    ensures
        told(joined_history(a, b)) == told(a).and(told(b)),
{
    let x = told_changes(a.line_changes);
    let y = told_changes(b.line_changes);
    assert(told_changes(a.line_changes + b.line_changes) =~= x + y);
    lemma_multiset_commutative(x, y);
    assert(told(joined_history(a, b)) =~= told(a).and(told(b)));
}

/// An empty history tells nothing.
proof fn lemma_empty_told()
    ensures
        told(FileHistory::empty()) == Told::nothing(),
{
    let none = told_changes(FileHistory::empty().line_changes);
    assert(none =~= Seq::<ToldChange>::empty());
    none.to_multiset_ensures();
    assert(none.to_multiset() =~= Multiset::empty());
}

/// The changes of lists that tell the same are among each other.
pub proof fn lemma_told_occur(a: Seq<LineChange>, b: Seq<LineChange>)
    requires
        told_changes(a).to_multiset() == told_changes(b).to_multiset(),
    ensures
        a.len() == b.len(),
        all_occur_in(a, b),
{
    let x = told_changes(a);
    let y = told_changes(b);
    x.to_multiset_ensures();
    y.to_multiset_ensures();
    assert(x.len() == x.to_multiset().len());
    assert(y.len() == y.to_multiset().len());
    assert forall|i: int| 0 <= i < a.len() implies #[trigger] occurs_in(a[i], b) by {
        assert(x.contains(x[i]));
        assert(x.to_multiset().count(x[i]) > 0);
        assert(y.contains(x[i]));
        let j = choose|j: int| 0 <= j < y.len() && y[j] == x[i];
        assert(x[i] == told_change(a[i]));
        assert(y[j] == told_change(b[j]));
        assert(change_alike(a[i], b[j]));
    }
}

/// An author has one change less where one of theirs is taken out.
proof fn lemma_changes_by_without(changes: Seq<LineChange>, j: int, author: Seq<char>)
    requires
        0 <= j < changes.len(),
    ensures
        changes_by(changes, author) == changes_by(changes.remove(j), author)
            + if changes[j].author@ == author {
            1nat
        } else {
            0nat
        },
    decreases changes.len(),
{
    if j == changes.len() - 1 {
        assert(changes.remove(j) =~= changes.drop_last());
    } else {
        lemma_changes_by_without(changes.drop_last(), j, author);
        assert(changes.remove(j).drop_last() =~= changes.drop_last().remove(j));
        assert(changes.remove(j).last() == changes.last());
    }
}

/// In lists of changes that tell the same an author has as many changes.
pub proof fn lemma_changes_by_told(a: Seq<LineChange>, b: Seq<LineChange>, author: Seq<char>)
    requires
        told_changes(a).to_multiset() == told_changes(b).to_multiset(),
    ensures
        changes_by(a, author) == changes_by(b, author),
    decreases a.len(),
{
    lemma_told_occur(a, b);
    if a.len() > 0 {
        let n = a.len() - 1;
        assert(occurs_in(a[n], b));
        let j = choose|j: int| 0 <= j < b.len() && #[trigger] change_alike(a[n], b[j]);
        let x = told_changes(a);
        let y = told_changes(b);
        assert(told_changes(a.remove(n)) =~= x.remove(n));
        assert(told_changes(b.remove(j)) =~= y.remove(j));
        vstd::seq_lib::to_multiset_remove(x, n);
        vstd::seq_lib::to_multiset_remove(y, j);
        assert(x[n] =~= y[j]);
        lemma_changes_by_told(a.remove(n), b.remove(j), author);
        lemma_changes_by_without(a, n, author);
        lemma_changes_by_without(b, j, author);
    }
}

/// What a commit tells of some ranges of a file.
pub open spec fn told_lines(
    ranges: Seq<ChangedRange>,
    commit: CommitRecord,
    is_fix: bool,
) -> Seq<ToldChange> {
    let lines = if ranges.len() == 0 {
        seq![whole_file()]
    } else {
        ranges
    };
    Seq::new(
        lines.len(),
        |i: int|
            ToldChange {
                commit: commit.id@,
                start_line: lines[i].start_line,
                end_line: lines[i].end_line,
                is_bug_fix: is_fix,
                author: commit.author(),
                timestamp: commit.timestamp,
            },
    )
}

/// Whether a commit that could be read changes a file.
pub open spec fn touches(outcome: CommitOutcome, path: Seq<char>) -> bool {
    outcome.record matches Ok(commit) && content_ranges(commit.content).contains_key(path)
}

/// What a commit tells of a file.
pub open spec fn told_of(
    outcome: CommitOutcome,
    path: Seq<char>,
    patterns: BugFixPatterns,
) -> Told {
    match outcome.record {
        Ok(commit) => if content_ranges(commit.content).contains_key(path) {
            Told {
                times_modified: 1,
                bug_fix_commits: if commit.fixes(patterns) {
                    1
                } else {
                    0
                },
                authors: Set::empty().insert(commit.author()),
                changes: told_lines(
                    content_ranges(commit.content)[path],
                    commit,
                    commit.fixes(patterns),
                ).to_multiset(),
            }
        } else {
            Told::nothing()
        },
        Err(_) => Told::nothing(),
    }
}

/// Whether any of some commits changes a file.
pub open spec fn any_touches(commits: Seq<CommitOutcome>, path: Seq<char>) -> bool {
    exists|i: int| 0 <= i < commits.len() && #[trigger] touches(commits[i], path)
}

/// What some commits tell of a file.
pub open spec fn told_by(
    commits: Seq<CommitOutcome>,
    path: Seq<char>,
    patterns: BugFixPatterns,
) -> Told
    decreases commits.len(),
{
    if commits.len() == 0 {
        Told::nothing()
    } else {
        told_by(commits.drop_last(), path, patterns).and(told_of(commits.last(), path, patterns))
    }
}

/// Whether histories tell, of the files that matter, what some commits do.
pub open spec fn tells_all(
    all: Map<Seq<char>, FileHistory>,
    commits: Seq<CommitOutcome>,
    patterns: BugFixPatterns,
    active: Set<Seq<char>>,
) -> bool {
    forall|path: Seq<char>| #[trigger]
        active.contains(path) ==> (all.contains_key(path) <==> any_touches(commits, path)) && told(
            history_in(all, path),
        ) == told_by(commits, path, patterns)
}

/// What commits tell can be held.
proof fn lemma_told_by_counted(
    commits: Seq<CommitOutcome>,
    path: Seq<char>,
    patterns: BugFixPatterns,
)
    ensures
        told_by(commits, path, patterns).is_counted(),
{
    if commits.len() > 0 {
        let rest = commits.drop_last();
        lemma_told_and(
            told_by(rest, path, patterns),
            told_of(commits.last(), path, patterns),
            Told::nothing(),
        );
    }
}

/// Of two groups of commits both tell.
proof fn lemma_groups_told(
    a: Seq<CommitOutcome>,
    b: Seq<CommitOutcome>,
    path: Seq<char>,
    patterns: BugFixPatterns,
)
    ensures
        told_by(a + b, path, patterns) == told_by(a, path, patterns).and(
            told_by(b, path, patterns),
        ),
        any_touches(a + b, path) <==> any_touches(a, path) || any_touches(b, path),
    decreases b.len(),
{
    lemma_told_by_counted(a, path, patterns);
    let x = told_by(a, path, patterns);
    if b.len() == 0 {
        assert(a + b =~= a);
        lemma_told_and(x, x, x);
    } else {
        let rest = b.drop_last();
        assert((a + b).drop_last() =~= a + rest);
        lemma_groups_told(a, rest, path, patterns);
        lemma_told_and(x, told_by(rest, path, patterns), told_of(b.last(), path, patterns));
    }
    if any_touches(a, path) {
        let i = choose|i: int| 0 <= i < a.len() && #[trigger] touches(a[i], path);
        assert((a + b)[i] == a[i]);
    }
    if any_touches(b, path) {
        let i = choose|i: int| 0 <= i < b.len() && #[trigger] touches(b[i], path);
        assert((a + b)[a.len() + i] == b[i]);
    }
    if any_touches(a + b, path) {
        let i = choose|i: int| 0 <= i < (a + b).len() && #[trigger] touches((a + b)[i], path);
        if i < a.len() {
            assert(touches(a[i], path));
        } else {
            assert(touches(b[i - a.len()], path));
        }
    }
}

/// What commits tell is what all but one of them tell, and what that one does.
proof fn lemma_told_without(
    commits: Seq<CommitOutcome>,
    i: int,
    path: Seq<char>,
    patterns: BugFixPatterns,
)
    requires
        0 <= i < commits.len(),
    ensures
        told_by(commits, path, patterns) == told_by(commits.remove(i), path, patterns).and(
            told_of(commits[i], path, patterns),
        ),
    decreases commits.len(),
{
    if i == commits.len() - 1 {
        assert(commits.remove(i) =~= commits.drop_last());
    } else {
        let rest = commits.drop_last();
        lemma_told_without(rest, i, path, patterns);
        let x = told_by(rest.remove(i), path, patterns);
        let y = told_of(commits[i], path, patterns);
        let z = told_of(commits.last(), path, patterns);
        assert(commits.remove(i).drop_last() =~= rest.remove(i));
        assert(commits.remove(i).last() == commits.last());
        lemma_told_and(x, y, z);
        lemma_told_and(x, z, y);
        lemma_told_and(y, z, x);
    }
}

/// The order in which commits are read does not matter for what they tell.
pub proof fn lemma_order_of_commits_is_not_told(
    a: Seq<CommitOutcome>,
    b: Seq<CommitOutcome>,
    path: Seq<char>,
    patterns: BugFixPatterns,
)
    requires
        a.to_multiset() == b.to_multiset(),
    ensures
        told_by(a, path, patterns) == told_by(b, path, patterns),
        any_touches(a, path) <==> any_touches(b, path),
    decreases a.len(),
{
    a.to_multiset_ensures();
    b.to_multiset_ensures();
    assert(a.len() == a.to_multiset().len());
    assert(b.len() == b.to_multiset().len());
    if any_touches(a, path) {
        let i = choose|i: int| 0 <= i < a.len() && #[trigger] touches(a[i], path);
        assert(a.contains(a[i]) && a.to_multiset().count(a[i]) > 0);
        assert(b.contains(a[i]));
        let j = choose|j: int| 0 <= j < b.len() && b[j] == a[i];
        assert(touches(b[j], path));
    }
    if any_touches(b, path) {
        let i = choose|i: int| 0 <= i < b.len() && #[trigger] touches(b[i], path);
        assert(b.contains(b[i]) && b.to_multiset().count(b[i]) > 0);
        assert(a.contains(b[i]));
        let j = choose|j: int| 0 <= j < a.len() && a[j] == b[i];
        assert(touches(a[j], path));
    }
    if a.len() > 0 {
        let n = a.len() - 1;
        assert(a.contains(a[n]) && a.to_multiset().count(a[n]) > 0);
        assert(b.contains(a[n]));
        let j = choose|j: int| 0 <= j < b.len() && b[j] == a[n];
        vstd::seq_lib::to_multiset_remove(a, n);
        vstd::seq_lib::to_multiset_remove(b, j);
        lemma_order_of_commits_is_not_told(a.remove(n), b.remove(j), path, patterns);
        lemma_told_without(a, n, path, patterns);
        lemma_told_without(b, j, path, patterns);
    }
}

/// What a commit adds to the history of a file is what it tells of the file.
proof fn lemma_contribution_told(
    own: Map<Seq<char>, FileHistory>,
    outcome: CommitOutcome,
    path: Seq<char>,
    patterns: BugFixPatterns,
)
    requires
        outcome.record is Ok,
        are_contributions(own, outcome.record->Ok_0, (outcome.record->Ok_0).fixes(patterns)),
    ensures
        told(history_in(own, path)) == told_of(outcome, path, patterns),
        own.contains_key(path) <==> touches(outcome, path),
{
    let commit = outcome.record->Ok_0;
    let is_fix = commit.fixes(patterns);
    assert(own.dom().contains(path) <==> content_ranges(commit.content).dom().contains(path));
    if own.contains_key(path) {
        let ranges = content_ranges(commit.content)[path];
        let h = own[path];
        assert(is_contribution(h, ranges, commit, is_fix));
        let lines = if ranges.len() == 0 {
            seq![whole_file()]
        } else {
            ranges
        };
        assert forall|i: int| 0 <= i < h.line_changes.len() implies told_changes(
            h.line_changes,
        )[i] == told_lines(ranges, commit, is_fix)[i] by {
            assert(is_change(h.line_changes[i], lines[i], commit, is_fix));
        }
        assert(told_changes(h.line_changes) =~= told_lines(ranges, commit, is_fix));
        assert(told(h) =~= told_of(outcome, path, patterns));
    } else {
        lemma_empty_told();
    }
}

/// What is read from commits is what they tell.
pub proof fn lemma_read_is_told(
    all: Map<Seq<char>, FileHistory>,
    commits: Seq<CommitOutcome>,
    path: Seq<char>,
    patterns: BugFixPatterns,
)
    requires
        are_read_histories(all, commits, patterns),
    ensures
        told(history_in(all, path)) == told_by(commits, path, patterns),
        all.contains_key(path) <==> any_touches(commits, path),
    decreases commits.len(),
{
    lemma_empty_told();
    if commits.len() > 0 {
        let rest = commits.drop_last();
        let last = commits.last();
        assert(rest + seq![last] =~= commits);
        lemma_groups_told(rest, seq![last], path, patterns);
        assert(any_touches(seq![last], path) <==> touches(last, path)) by {
            if touches(last, path) {
                assert(touches(seq![last][0], path));
            }
        }
        match last.record {
            Ok(commit) => {
                let (before, own) = choose|
                    before: Map<Seq<char>, FileHistory>,
                    own: Map<Seq<char>, FileHistory>,
                | #[trigger]
                    is_step(all, before, own, commit, patterns) && are_read_histories(
                        before,
                        rest,
                        patterns,
                    );
                lemma_read_is_told(before, rest, path, patterns);
                lemma_contribution_told(own, last, path, patterns);
                lemma_merged_told(before, own, path);
            },
            Err(_) => {
                lemma_read_is_told(all, rest, path, patterns);
                lemma_told_by_counted(rest, path, patterns);
                let x = told_by(rest, path, patterns);
                lemma_told_and(x, x, x);
            },
        }
    }
}

/// Of a file merged histories tell what both tell.
proof fn lemma_merged_told(
    a: Map<Seq<char>, FileHistory>,
    b: Map<Seq<char>, FileHistory>,
    path: Seq<char>,
)
    ensures
        told(history_in(merged_histories(a, b), path)) == told(history_in(a, path)).and(
            told(history_in(b, path)),
        ),
{
    lemma_joined_told(history_in(a, path), history_in(b, path));
    if !merged_histories(a, b).contains_key(path) {
        lemma_empty_told();
        let none = Told::nothing();
        lemma_told_and(none, none, none);
    }
}

/// Without renamings nothing is carried over.
proof fn lemma_nothing_carried_over(
    all: Map<Seq<char>, FileHistory>,
    keys: Seq<Seq<char>>,
    n: int,
)
    requires
        n <= keys.len(),
    ensures
        carried_over(all, keys, Map::empty(), n) == all,
    decreases n,
{
    if n > 0 {
        lemma_nothing_carried_over(all, keys, n - 1);
        lemma_unrenamed(Map::empty(), keys[n - 1]);
    }
}

/// Whether a kept history, which tells what earlier commits do, was brought up to date
/// with later commits, none of which renames a file.
pub open spec fn is_brought_up_to_date(
    after: GitMetricsResult,
    before: GitMetricsResult,
    read: GitBatchMetrics,
    keys: Seq<Seq<char>>,
    earlier: Seq<CommitOutcome>,
    later: Seq<CommitOutcome>,
    patterns: BugFixPatterns,
    active: Set<Seq<char>>,
) -> bool {
    &&& tells_all(histories(before.cache@), earlier, patterns, active)
    &&& are_read_histories(histories(read.files@), later, patterns)
    &&& pairs(read.renames@) == read_renames(later)
    &&& read_renames(later).len() == 0
    &&& is_finished(after, before, read, keys)
}

/// What was kept of earlier commits, with what later ones add, tells what all of them
/// tell, in whatever order they come. Where a later commit renames files this is left
/// open.
pub proof fn lemma_new_commits_add_to_what_was_kept(
    after: GitMetricsResult,
    before: GitMetricsResult,
    read: GitBatchMetrics,
    keys: Seq<Seq<char>>,
    earlier: Seq<CommitOutcome>,
    later: Seq<CommitOutcome>,
    all: Seq<CommitOutcome>,
    patterns: BugFixPatterns,
    active: Set<Seq<char>>,
)
    requires
        is_brought_up_to_date(after, before, read, keys, earlier, later, patterns, active),
        all.to_multiset() == (earlier + later).to_multiset(),
    ensures
        tells_all(histories(after.cache@), all, patterns, active),
{
    assert(read.renames@.len() == pairs(read.renames@).len());
    let a = histories(before.cache@);
    let b = histories(read.files@);
    lemma_nothing_carried_over(merged_histories(a, b), keys, keys.len() as int);
    assert(alias_map(read.renames@) == Map::<Seq<char>, Seq<char>>::empty());
    let c = histories(after.cache@);
    assert forall|path: Seq<char>| #[trigger] active.contains(path) implies (c.contains_key(path)
        <==> any_touches(all, path)) && told(history_in(c, path)) == told_by(
        all,
        path,
        patterns,
    ) by {
        lemma_read_is_told(b, later, path, patterns);
        lemma_merged_told(a, b, path);
        lemma_groups_told(earlier, later, path, patterns);
        lemma_order_of_commits_is_not_told(all, earlier + later, path, patterns);
    }
}

/// Histories that tell what the same commits do agree on the files that matter.
pub proof fn lemma_same_commits_agree(
    a: Map<Seq<char>, FileHistory>,
    b: Map<Seq<char>, FileHistory>,
    commits: Seq<CommitOutcome>,
    patterns: BugFixPatterns,
    active: Set<Seq<char>>,
)
    requires
        tells_all(a, commits, patterns, active),
        tells_all(b, commits, patterns, active),
    ensures
        histories_agree(a.restrict(active), b.restrict(active)),
{
    let x = a.restrict(active);
    let y = b.restrict(active);
    assert forall|path: Seq<char>| x.dom().contains(path) <==> y.dom().contains(path) by {
        if active.contains(path) {
            assert(a.contains_key(path) <==> b.contains_key(path));
        }
    }
    assert(x.dom() =~= y.dom());
    assert forall|path: Seq<char>| #[trigger] x.contains_key(path) implies told(x[path]) == told(
        y[path],
    ) by {
        assert(active.contains(path));
        assert(y.dom().contains(path));
        assert(told(history_in(a, path)) == told(history_in(b, path)));
    }
}

/// No history tells what no commits do, so reading all commits anew starts from a
/// kept history as well.
pub proof fn lemma_no_history_tells_no_commits(
    patterns: BugFixPatterns,
    active: Set<Seq<char>>,
)
    ensures
        tells_all(
            histories(Map::<Seq<char>, GitCacheEntry>::empty()),
            Seq::empty(),
            patterns,
            active,
        ),
{
    lemma_empty_told();
}

/// Reading only the commits that came since gives the same history as reading all of
/// them anew: of the files that matter, the kept history and the new commits tell
/// what one walk over all commits tells. Where a commit renames files this is left
/// open.
pub proof fn lemma_incremental_history_is_that_of_one_walk(
    after: GitMetricsResult,
    before: GitMetricsResult,
    read: GitBatchMetrics,
    keys: Seq<Seq<char>>,
    whole: GitMetricsResult,
    fresh: GitMetricsResult,
    read_all: GitBatchMetrics,
    keys_all: Seq<Seq<char>>,
    earlier: Seq<CommitOutcome>,
    later: Seq<CommitOutcome>,
    all: Seq<CommitOutcome>,
    patterns: BugFixPatterns,
    active: Set<Seq<char>>,
)
    requires
        is_brought_up_to_date(after, before, read, keys, earlier, later, patterns, active),
        fresh.cache@ == Map::<Seq<char>, GitCacheEntry>::empty(),
        is_brought_up_to_date(
            whole,
            fresh,
            read_all,
            keys_all,
            Seq::empty(),
            all,
            patterns,
            active,
        ),
        all.to_multiset() == (earlier + later).to_multiset(),
    ensures
        histories_agree(
            histories(after.cache@).restrict(active),
            histories(whole.cache@).restrict(active),
        ),
{
    lemma_new_commits_add_to_what_was_kept(
        after,
        before,
        read,
        keys,
        earlier,
        later,
        all,
        patterns,
        active,
    );
    let none = Seq::<CommitOutcome>::empty();
    assert(none + all =~= all);
    lemma_new_commits_add_to_what_was_kept(
        whole,
        fresh,
        read_all,
        keys_all,
        none,
        all,
        all,
        patterns,
        active,
    );
    lemma_same_commits_agree(
        histories(after.cache@),
        histories(whole.cache@),
        all,
        patterns,
        active,
    );
}

} // verus!
