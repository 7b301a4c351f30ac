//! The same commits always make up the same history.

use super::batch::{
    any_failed, are_read_histories, failures, is_step, read_commits, read_renames, CommitOutcome,
};
use super::churn::change_alike;
use super::commits::{
    are_contributions, content_ranges, is_change, pairs, whole_file, CommitRecord, GitBatchMetrics,
};
use super::history::{histories, history_in, joined_history, merged_histories, with_history};
use super::patterns::BugFixPatterns;
use super::plan::{is_finished, GitMetricsResult};
use super::renames::{alias_map, carried_over, current_name};
use super::told::{entry_agrees, histories_agree, told, told_changes};
use crate::cache::{FileHistory, GitCacheEntry, LineChange};
use crate::table::{ascending, lemma_ascending_unique, TextMap};
use crate::text::views;
use vstd::prelude::*;

verus! {

/// Whether two lists of changes read the same.
pub open spec fn changes_alike(a: Seq<LineChange>, b: Seq<LineChange>) -> bool {
    &&& a.len() == b.len()
    &&& forall|i: int| 0 <= i < a.len() ==> change_alike(#[trigger] a[i], b[i])
}

/// Whether two histories of a file read the same.
pub open spec fn history_alike(a: FileHistory, b: FileHistory) -> bool {
    &&& a.times_modified == b.times_modified
    &&& a.bug_fix_commits == b.bug_fix_commits
    &&& a.authors == b.authors
    &&& changes_alike(a.line_changes, b.line_changes)
}

/// Whether the histories of the same files read the same.
pub open spec fn histories_alike(
    a: Map<Seq<char>, FileHistory>,
    b: Map<Seq<char>, FileHistory>,
) -> bool {
    &&& a.dom() == b.dom()
    &&& forall|path: Seq<char>| #[trigger] a.contains_key(path) ==> history_alike(a[path], b[path])
}

/// Whether the files, and the authors of each, come in order.
pub open spec fn is_ordered(cache: TextMap<GitCacheEntry>) -> bool {
    &&& ascending(cache.keys())
    &&& forall|i: int|
        0 <= i < cache.values().len() ==> ascending(
            (#[trigger] cache.values()[i]).authors.list(),
        )
}

/// Whether two collections of histories read the same.
pub open spec fn caches_alike(a: TextMap<GitCacheEntry>, b: TextMap<GitCacheEntry>) -> bool {
    &&& is_ordered(a)
    &&& is_ordered(b)
    &&& histories_alike(histories(a@), histories(b@))
}

/// Whether two collections of histories tell the same, whatever the order of the
/// changes.
pub open spec fn caches_agree(a: TextMap<GitCacheEntry>, b: TextMap<GitCacheEntry>) -> bool {
    &&& is_ordered(a)
    &&& is_ordered(b)
    &&& histories_agree(histories(a@), histories(b@))
}

/// Collections that read the same tell the same.
pub proof fn lemma_alike_agree(a: TextMap<GitCacheEntry>, b: TextMap<GitCacheEntry>)
    requires
        caches_alike(a, b),
    ensures
        caches_agree(a, b),
{
    let x = histories(a@);
    let y = histories(b@);
    assert forall|path: Seq<char>| #[trigger] x.contains_key(path) implies told(x[path]) == told(
        y[path],
    ) by {
        let p = x[path].line_changes;
        let q = y[path].line_changes;
        assert(history_alike(x[path], y[path]));
        assert forall|i: int| 0 <= i < p.len() implies told_changes(p)[i] == told_changes(q)[i] by {
            assert(change_alike(p[i], q[i]));
        }
        assert(told_changes(p) =~= told_changes(q));
    }
}

/// In collections that tell the same the same files come in the same order.
pub proof fn lemma_caches_in_step(a: TextMap<GitCacheEntry>, b: TextMap<GitCacheEntry>)
    requires
        caches_agree(a, b),
    ensures
        a.keys() == b.keys(),
        a.values().len() == b.values().len(),
        forall|i: int|
            0 <= i < a.values().len() ==> entry_agrees(#[trigger] a.values()[i], b.values()[i]),
        forall|path: Seq<char>| #[trigger] a@.contains_key(path) <==> b@.contains_key(path),
        forall|path: Seq<char>| #[trigger]
            a@.contains_key(path) ==> entry_agrees(a@[path], b@[path]),
{
    TextMap::lemma_view(&a);
    TextMap::lemma_view(&b);
    assert forall|k: Seq<char>| #[trigger] a.keys().contains(k) <==> b.keys().contains(k) by {
        assert(a@.contains_key(k) <==> histories(a@).dom().contains(k));
        assert(b@.contains_key(k) <==> histories(b@).dom().contains(k));
    }
    lemma_ascending_unique(a.keys(), b.keys());
    assert forall|i: int| 0 <= i < a.values().len() implies entry_agrees(
        #[trigger] a.values()[i],
        b.values()[i],
    ) by {
        let k = a.keys()[i];
        assert(a@.contains_key(k) && a@[k] == a.values()[i]);
        assert(b@.contains_key(k) && b@[k] == b.values()[i]);
        assert(histories(a@).contains_key(k));
        assert(told(histories(a@)[k]) == told(histories(b@)[k]));
        let x = a.values()[i].authors;
        let y = b.values()[i].authors;
        assert(x@ == y@);
        assert forall|n: Seq<char>| #[trigger] x.list().contains(n) <==> y.list().contains(n) by {
            assert(x@.contains(n) <==> y@.contains(n));
        }
        lemma_ascending_unique(x.list(), y.list());
    }
    assert forall|path: Seq<char>| #[trigger] a@.contains_key(path) <==> b@.contains_key(path) by {
        assert(a.keys().contains(path) <==> b.keys().contains(path));
    }
    assert forall|path: Seq<char>| #[trigger] a@.contains_key(path) implies entry_agrees(
        a@[path],
        b@[path],
    ) by {
        let i = choose|i: int| 0 <= i < a.keys().len() && a.keys()[i] == path;
        assert(a@[a.keys()[i]] == a.values()[i]);
        assert(b@[b.keys()[i]] == b.values()[i]);
        assert(entry_agrees(a.values()[i], b.values()[i]));
    }
}

/// What is kept of collections that read the same reads the same.
pub proof fn lemma_kept_alike(
    a: TextMap<GitCacheEntry>,
    kept: TextMap<GitCacheEntry>,
    b: TextMap<GitCacheEntry>,
    kept2: TextMap<GitCacheEntry>,
    paths: Set<Seq<char>>,
)
    requires
        caches_alike(a, b),
        kept@ == a@.restrict(paths),
        kept2@ == b@.restrict(paths),
        ascending(kept.keys()),
        ascending(kept2.keys()),
    ensures
        caches_alike(kept, kept2),
{
    lemma_kept_ordered(a, kept, paths);
    lemma_kept_ordered(b, kept2, paths);
    let x = histories(kept@);
    let y = histories(kept2@);
    assert(x.dom() =~= y.dom()) by {
        assert forall|p: Seq<char>| x.dom().contains(p) <==> y.dom().contains(p) by {
            assert(histories(a@).dom().contains(p) <==> histories(b@).dom().contains(p));
        }
    }
    assert forall|p: Seq<char>| #[trigger] x.contains_key(p) implies history_alike(x[p], y[p]) by {
        assert(histories(a@).contains_key(p));
    }
}

/// What is kept of collections agrees where their histories do on the files that are
/// kept.
pub proof fn lemma_kept_agree(
    a: TextMap<GitCacheEntry>,
    kept: TextMap<GitCacheEntry>,
    b: TextMap<GitCacheEntry>,
    kept2: TextMap<GitCacheEntry>,
    paths: Set<Seq<char>>,
)
    requires
        is_ordered(a),
        is_ordered(b),
        histories_agree(histories(a@).restrict(paths), histories(b@).restrict(paths)),
        kept@ == a@.restrict(paths),
        kept2@ == b@.restrict(paths),
        ascending(kept.keys()),
        ascending(kept2.keys()),
    ensures
        caches_agree(kept, kept2),
{
    lemma_kept_ordered(a, kept, paths);
    lemma_kept_ordered(b, kept2, paths);
    assert(histories(kept@) =~= histories(a@).restrict(paths));
    assert(histories(kept2@) =~= histories(b@).restrict(paths));
}

proof fn lemma_kept_ordered(
    a: TextMap<GitCacheEntry>,
    kept: TextMap<GitCacheEntry>,
    paths: Set<Seq<char>>,
)
    requires
        is_ordered(a),
        kept@ == a@.restrict(paths),
        ascending(kept.keys()),
    ensures
        is_ordered(kept),
{
    TextMap::lemma_view(&a);
    TextMap::lemma_view(&kept);
    assert forall|i: int| 0 <= i < kept.values().len() implies ascending(
        (#[trigger] kept.values()[i]).authors.list(),
    ) by {
        let k = kept.keys()[i];
        assert(kept@.contains_key(k) && kept@[k] == kept.values()[i]);
        assert(a@.contains_key(k));
        let j = choose|j: int| 0 <= j < a.keys().len() && a.keys()[j] == k;
        assert(a@[a.keys()[j]] == a.values()[j]);
        assert(ascending(a.values()[j].authors.list()));
    }
}

/// Joined histories read the same where their parts do.
proof fn lemma_joined_alike(a: FileHistory, b: FileHistory, a2: FileHistory, b2: FileHistory)
    requires
        history_alike(a, a2),
        history_alike(b, b2),
    ensures
        history_alike(joined_history(a, b), joined_history(a2, b2)),
{
    let x = a.line_changes + b.line_changes;
    let y = a2.line_changes + b2.line_changes;
    assert forall|i: int| 0 <= i < x.len() implies change_alike(#[trigger] x[i], y[i]) by {
        if i < a.line_changes.len() {
            assert(change_alike(a.line_changes[i], a2.line_changes[i]));
        } else {
            let j = i - a.line_changes.len();
            assert(change_alike(b.line_changes[j], b2.line_changes[j]));
        }
    }
}

/// The history of a file reads the same in collections that do.
proof fn lemma_in_alike(
    a: Map<Seq<char>, FileHistory>,
    b: Map<Seq<char>, FileHistory>,
    path: Seq<char>,
)
    requires
        histories_alike(a, b),
    ensures
        history_alike(history_in(a, path), history_in(b, path)),
{
    assert(a.dom().contains(path) <==> b.dom().contains(path));
    if a.contains_key(path) {
        assert(history_alike(a[path], b[path]));
    }
}

/// Merged histories read the same where their parts do.
proof fn lemma_merged_alike(
    a: Map<Seq<char>, FileHistory>,
    b: Map<Seq<char>, FileHistory>,
    a2: Map<Seq<char>, FileHistory>,
    b2: Map<Seq<char>, FileHistory>,
)
    requires
        histories_alike(a, a2),
        histories_alike(b, b2),
    ensures
        histories_alike(merged_histories(a, b), merged_histories(a2, b2)),
{
    let x = merged_histories(a, b);
    let y = merged_histories(a2, b2);
    assert(x.dom() =~= y.dom()) by {
        assert forall|p: Seq<char>| x.dom().contains(p) <==> y.dom().contains(p) by {
            assert(a.dom().contains(p) <==> a2.dom().contains(p));
            assert(b.dom().contains(p) <==> b2.dom().contains(p));
        }
    }
    assert forall|p: Seq<char>| #[trigger] x.contains_key(p) implies history_alike(x[p], y[p]) by {
        lemma_in_alike(a, a2, p);
        lemma_in_alike(b, b2, p);
        lemma_joined_alike(
            history_in(a, p),
            history_in(b, p),
            history_in(a2, p),
            history_in(b2, p),
        );
        assert(y.dom().contains(p));
    }
}

/// A commit adds the same to histories whenever it is read.
proof fn lemma_contributions_alike(
    a: Map<Seq<char>, FileHistory>,
    b: Map<Seq<char>, FileHistory>,
    commit: CommitRecord,
    is_fix: bool,
)
    requires
        are_contributions(a, commit, is_fix),
        are_contributions(b, commit, is_fix),
    ensures
        histories_alike(a, b),
{
    assert forall|p: Seq<char>| #[trigger] a.contains_key(p) implies history_alike(a[p], b[p]) by {
        assert(b.dom().contains(p));
        assert(b.contains_key(p));
        let x = a[p].line_changes;
        let y = b[p].line_changes;
        let ranges = content_ranges(commit.content)[p];
        let lines = if ranges.len() == 0 {
            seq![whole_file()]
        } else {
            ranges
        };
        assert forall|i: int| 0 <= i < x.len() implies change_alike(#[trigger] x[i], y[i]) by {
            assert(is_change(x[i], lines[i], commit, is_fix));
            assert(is_change(y[i], lines[i], commit, is_fix));
        }
    }
}

/// Reading the same commits gives the same histories every time.
pub proof fn lemma_reading_is_deterministic(
    a: Map<Seq<char>, FileHistory>,
    b: Map<Seq<char>, FileHistory>,
    commits: Seq<CommitOutcome>,
    patterns: BugFixPatterns,
)
    requires
        are_read_histories(a, commits, patterns),
        are_read_histories(b, commits, patterns),
    ensures
        histories_alike(a, b),
    decreases commits.len(),
{
    if commits.len() > 0 {
        let rest = commits.drop_last();
        match commits.last().record {
            Ok(commit) => {
                let (p, x) = choose|
                    before: Map<Seq<char>, FileHistory>,
                    own: Map<Seq<char>, FileHistory>,
                | #[trigger]
                    is_step(a, before, own, commit, patterns) && are_read_histories(
                        before,
                        rest,
                        patterns,
                    );
                let (q, y) = choose|
                    before: Map<Seq<char>, FileHistory>,
                    own: Map<Seq<char>, FileHistory>,
                | #[trigger]
                    is_step(b, before, own, commit, patterns) && are_read_histories(
                        before,
                        rest,
                        patterns,
                    );
                lemma_reading_is_deterministic(p, q, rest, patterns);
                lemma_contributions_alike(x, y, commit, commit.fixes(patterns));
                lemma_merged_alike(p, x, q, y);
            },
            Err(_) => {
                lemma_reading_is_deterministic(a, b, rest, patterns);
            },
        }
    }
}

/// The same renamings make the same map.
proof fn lemma_aliases_same(a: Seq<(String, String)>, b: Seq<(String, String)>)
    requires
        pairs(a) == pairs(b),
    ensures
        alias_map(a) == alias_map(b),
    decreases a.len(),
{
    assert(pairs(a).len() == a.len() && pairs(b).len() == b.len());
    if a.len() > 0 {
        let n = a.len() - 1;
        assert(pairs(a)[n] == pairs(b)[n]);
        assert(pairs(a.drop_last()) =~= pairs(a).drop_last());
        assert(pairs(b.drop_last()) =~= pairs(b).drop_last());
        lemma_aliases_same(a.drop_last(), b.drop_last());
    }
}

/// Histories that read the same are carried over to the same names.
proof fn lemma_carried_alike(
    a: Map<Seq<char>, FileHistory>,
    b: Map<Seq<char>, FileHistory>,
    keys: Seq<Seq<char>>,
    aliases: Map<Seq<char>, Seq<char>>,
    n: int,
)
    requires
        histories_alike(a, b),
        0 <= n <= keys.len(),
        keys.to_set() == a.dom(),
    ensures
        histories_alike(carried_over(a, keys, aliases, n), carried_over(b, keys, aliases, n)),
    decreases n,
{
    if n > 0 {
        lemma_carried_alike(a, b, keys, aliases, n - 1);
        let path = keys[n - 1];
        let name = current_name(aliases, path);
        if name != path {
            let x = carried_over(a, keys, aliases, n - 1);
            let y = carried_over(b, keys, aliases, n - 1);
            assert(keys.to_set().contains(path)) by {
                assert(keys.contains(path));
            }
            assert(a.contains_key(path));
            assert(history_alike(a[path], b[path]));
            lemma_in_alike(x, y, name);
            lemma_joined_alike(history_in(x, name), a[path], history_in(y, name), b[path]);
            let u = with_history(x, name, a[path]);
            let v = with_history(y, name, b[path]);
            assert(u.dom() =~= v.dom());
            assert forall|p: Seq<char>| #[trigger] u.contains_key(p) implies history_alike(
                u[p],
                v[p],
            ) by {
                if p != name {
                    assert(x.contains_key(p));
                }
            }
        }
    }
}

/// Adding the same commits to the same kept histories gives the same histories.
proof fn lemma_finishing_is_deterministic(
    after: GitMetricsResult,
    before: GitMetricsResult,
    read: GitBatchMetrics,
    keys: Seq<Seq<char>>,
    after2: GitMetricsResult,
    before2: GitMetricsResult,
    read2: GitBatchMetrics,
    keys2: Seq<Seq<char>>,
)
    requires
        is_finished(after, before, read, keys),
        is_finished(after2, before2, read2, keys2),
        histories_alike(histories(before.cache@), histories(before2.cache@)),
        histories_alike(histories(read.files@), histories(read2.files@)),
        pairs(read.renames@) == pairs(read2.renames@),
    ensures
        histories_alike(histories(after.cache@), histories(after2.cache@)),
{
    let a = merged_histories(histories(before.cache@), histories(read.files@));
    let b = merged_histories(histories(before2.cache@), histories(read2.files@));
    lemma_merged_alike(
        histories(before.cache@),
        histories(read.files@),
        histories(before2.cache@),
        histories(read2.files@),
    );
    assert forall|k: Seq<char>| #[trigger] keys.contains(k) <==> keys2.contains(k) by {
        assert(keys.to_set().contains(k) <==> keys2.to_set().contains(k));
    }
    lemma_ascending_unique(keys, keys2);
    lemma_aliases_same(read.renames@, read2.renames@);
    lemma_carried_alike(a, b, keys, alias_map(read.renames@), keys.len() as int);
}

/// Whether this is what some commits say of the files that they change.
pub open spec fn tells_commits(
    read: GitBatchMetrics,
    commits: Seq<CommitOutcome>,
    patterns: BugFixPatterns,
) -> bool {
    &&& are_read_histories(histories(read.files@), commits, patterns)
    &&& pairs(read.renames@) == read_renames(commits)
    &&& read.processed_commits == read_commits(commits)
    &&& read.partial == any_failed(commits)
    &&& views(read.warnings@) == failures(commits)
}

/// The same commits, on top of the same kept histories, always give the same
/// history, the same counts and the same warnings.
pub proof fn lemma_history_is_deterministic(
    after: GitMetricsResult,
    before: GitMetricsResult,
    read: GitBatchMetrics,
    keys: Seq<Seq<char>>,
    after2: GitMetricsResult,
    before2: GitMetricsResult,
    read2: GitBatchMetrics,
    keys2: Seq<Seq<char>>,
    commits: Seq<CommitOutcome>,
    patterns: BugFixPatterns,
)
    requires
        tells_commits(read, commits, patterns),
        tells_commits(read2, commits, patterns),
        is_finished(after, before, read, keys),
        is_finished(after2, before2, read2, keys2),
        histories_alike(histories(before.cache@), histories(before2.cache@)),
        before.cache_reset == before2.cache_reset,
        views(before.warnings@) == views(before2.warnings@),
    ensures
        histories_alike(histories(after.cache@), histories(after2.cache@)),
        after.processed_commits == after2.processed_commits,
        after.partial == after2.partial,
        after.cache_reset == after2.cache_reset,
        views(after.warnings@) == views(after2.warnings@),
{
    lemma_reading_is_deterministic(
        histories(read.files@),
        histories(read2.files@),
        commits,
        patterns,
    );
    lemma_finishing_is_deterministic(
        after,
        before,
        read,
        keys,
        after2,
        before2,
        read2,
        keys2,
    );
    assert(views(after.warnings@) =~= views(before.warnings@) + views(read.warnings@));
    assert(views(after2.warnings@) =~= views(before2.warnings@) + views(read2.warnings@));
}

} // verus!
