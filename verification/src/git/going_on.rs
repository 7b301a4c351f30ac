//! How a history goes on from what was kept, and under which names it is told.

use super::commits::GitBatchMetrics;
use super::history::{histories, history_in, joined_history, merged_histories};
use super::plan::{full_oid, is_finished, is_oid, is_start, GitMetricsResult, HistoryStep};
use super::renames::{alias_map, carried_over, current_name, resolved};
use crate::cache::{FileHistory, GitCacheEntry, LineChange};
use crate::error::UchikomiError;
use crate::table::TextMap;
use vstd::prelude::*;

verus! {

/// All commits are read only where nothing that was kept is gone on with, so that none
/// is counted twice; and what was kept is gone on with only where it was counted in the
/// same way and its commit is known. Where that commit is the current one, nothing is
/// read.
pub proof fn lemma_no_commit_is_counted_twice(
    r: Result<(GitMetricsResult, HistoryStep), UchikomiError>,
    git_cache: TextMap<GitCacheEntry>,
    compatible: bool,
    last_commit: Option<Seq<char>>,
    head: Seq<char>,
)
    requires
        is_start(r, git_cache, compatible, last_commit, head),
        r is Ok,
    ensures
        ({
            let result = (r->Ok_0).0;
            let step = (r->Ok_0).1;
            let usable = compatible && last_commit is Some && is_oid(last_commit->0);
            &&& result.processed_commits == 0
            &&& !result.partial
            &&& !usable ==> step is WalkAll && forall|path: Seq<char>|
                !result.cache@.contains_key(path)
            &&& usable ==> result.cache == git_cache && !result.cache_reset
                && result.warnings@.len() == 0 && is_oid(head)
            &&& step is Finished <==> usable && full_oid(last_commit->0) == full_oid(head)
            &&& step is CheckAncestor <==> usable && full_oid(last_commit->0) != full_oid(head)
            &&& !compatible ==> result.cache_reset
            &&& step !is WalkBehind
        }),
{
}

/// Without renamings, what is told of a file is what was kept of it, followed by what
/// was read.
pub proof fn lemma_what_was_read_follows_what_was_kept(
    after: GitMetricsResult,
    before: GitMetricsResult,
    read: GitBatchMetrics,
    keys: Seq<Seq<char>>,
    path: Seq<char>,
)
    requires
        is_finished(after, before, read, keys),
        read.renames@.len() == 0,
    ensures
        after.cache@.contains_key(path) <==> before.cache@.contains_key(path)
            || read.files@.contains_key(path),
        before.cache@.contains_key(path) && read.files@.contains_key(path)
            ==> after.cache@[path]@ == joined_history(
            before.cache@[path]@,
            read.files@[path]@,
        ),
        before.cache@.contains_key(path) && !read.files@.contains_key(path)
            ==> after.cache@[path]@ == joined_history(before.cache@[path]@, FileHistory::empty()),
        !before.cache@.contains_key(path) && read.files@.contains_key(path)
            ==> after.cache@[path]@ == joined_history(FileHistory::empty(), read.files@[path]@),
        after.processed_commits == read.processed_commits,
        after.partial == read.partial,
{
    let aliases = alias_map(read.renames@);
    assert(aliases =~= Map::<Seq<char>, Seq<char>>::empty());
    let all = merged_histories(histories(before.cache@), histories(read.files@));
    lemma_nothing_carried(all, keys, keys.len() as int);
    let told = histories(after.cache@);
    assert(told == all);
    assert(told.contains_key(path) == after.cache@.contains_key(path));
    if after.cache@.contains_key(path) {
        assert(told[path] == after.cache@[path]@);
    }
}

proof fn lemma_nothing_carried(
    all: Map<Seq<char>, FileHistory>,
    keys: Seq<Seq<char>>,
    n: int,
)
    ensures
        carried_over(all, keys, Map::<Seq<char>, Seq<char>>::empty(), n) == all,
    decreases n,
{
    if n > 0 {
        lemma_nothing_carried(all, keys, n - 1);
        let none = Map::<Seq<char>, Seq<char>>::empty();
        assert(resolved(none, keys[n - 1], Set::empty()) == keys[n - 1]);
    }
}

/// Whether what is told under a name is that of a file: it has the name, or it has had
/// another one since.
pub open spec fn is_told_under(
    aliases: Map<Seq<char>, Seq<char>>,
    path: Seq<char>,
    name: Seq<char>,
) -> bool {
    path == name || current_name(aliases, path) == name
}

/// Under a name stand the changes and the authors of the files that have it now, or had
/// it themselves, and of no others.
pub proof fn lemma_only_renamed_files_are_told_under_a_name(
    all: Map<Seq<char>, FileHistory>,
    keys: Seq<Seq<char>>,
    aliases: Map<Seq<char>, Seq<char>>,
    n: int,
    name: Seq<char>,
    c: LineChange,
    author: Seq<char>,
)
    requires
        0 <= n <= keys.len(),
        forall|i: int| 0 <= i < keys.len() ==> all.contains_key(#[trigger] keys[i]),
        all.contains_key(name) ==> keys.take(n).contains(name),
    ensures
        ({
            let after = carried_over(all, keys, aliases, n);
            &&& after.contains_key(name) <==> exists|i: int|
                0 <= i < n && is_told_under(aliases, #[trigger] keys[i], name)
            &&& history_in(after, name).line_changes.contains(c) <==> exists|i: int|
                0 <= i < n && is_told_under(aliases, #[trigger] keys[i], name)
                    && all[keys[i]].line_changes.contains(c)
            &&& history_in(after, name).authors.contains(author) <==> exists|i: int|
                0 <= i < n && is_told_under(aliases, #[trigger] keys[i], name)
                    && all[keys[i]].authors.contains(author)
        }),
{
    lemma_carried(all, keys, aliases, n, name, c, author);
    let after = carried_over(all, keys, aliases, n);
    if all.contains_key(name) {
        let k = choose|k: int| 0 <= k < keys.take(n).len() && keys.take(n)[k] == name;
        assert(keys[k] == name);
        assert(is_told_under(aliases, keys[k], name));
    }
    assert forall|i: int| 0 <= i < n && #[trigger] keys[i] == name implies all.contains_key(
        name,
    ) by {
        assert(all.contains_key(keys[i]));
    }
    if exists|i: int| 0 <= i < n && is_told_under(aliases, #[trigger] keys[i], name) {
        let i = choose|i: int| 0 <= i < n && is_told_under(aliases, #[trigger] keys[i], name);
        if keys[i] != name {
            assert(is_moved(aliases, keys[i], name));
        }
    }
    if exists|i: int| 0 <= i < n && is_moved(aliases, #[trigger] keys[i], name) {
        let i = choose|i: int| 0 <= i < n && is_moved(aliases, #[trigger] keys[i], name);
        assert(is_told_under(aliases, keys[i], name));
    }
    if history_in(after, name).line_changes.contains(c) {
        if !history_in(all, name).line_changes.contains(c) {
            let i = choose|i: int|
                0 <= i < n && is_moved(aliases, #[trigger] keys[i], name)
                    && all[keys[i]].line_changes.contains(c);
            assert(is_told_under(aliases, keys[i], name));
        }
    }
    if exists|i: int|
        0 <= i < n && is_told_under(aliases, #[trigger] keys[i], name)
            && all[keys[i]].line_changes.contains(c) {
        let i = choose|i: int|
            0 <= i < n && is_told_under(aliases, #[trigger] keys[i], name)
                && all[keys[i]].line_changes.contains(c);
        if keys[i] != name {
            assert(is_moved(aliases, keys[i], name));
        }
    }
    if history_in(after, name).authors.contains(author) {
        if !history_in(all, name).authors.contains(author) {
            let i = choose|i: int|
                0 <= i < n && is_moved(aliases, #[trigger] keys[i], name)
                    && all[keys[i]].authors.contains(author);
            assert(is_told_under(aliases, keys[i], name));
        }
    }
    if exists|i: int|
        0 <= i < n && is_told_under(aliases, #[trigger] keys[i], name)
            && all[keys[i]].authors.contains(author) {
        let i = choose|i: int|
            0 <= i < n && is_told_under(aliases, #[trigger] keys[i], name)
                && all[keys[i]].authors.contains(author);
        if keys[i] != name {
            assert(is_moved(aliases, keys[i], name));
        }
    }
}

spec fn is_moved(
    aliases: Map<Seq<char>, Seq<char>>,
    path: Seq<char>,
    name: Seq<char>,
) -> bool {
    path != name && current_name(aliases, path) == name
}

proof fn lemma_carried(
    all: Map<Seq<char>, FileHistory>,
    keys: Seq<Seq<char>>,
    aliases: Map<Seq<char>, Seq<char>>,
    n: int,
    name: Seq<char>,
    c: LineChange,
    author: Seq<char>,
)
    requires
        0 <= n <= keys.len(),
    ensures
        ({
            let after = carried_over(all, keys, aliases, n);
            &&& after.contains_key(name) <==> all.contains_key(name) || exists|i: int|
                0 <= i < n && is_moved(aliases, #[trigger] keys[i], name)
            &&& history_in(after, name).line_changes.contains(c) <==> history_in(
                all,
                name,
            ).line_changes.contains(c) || exists|i: int|
                0 <= i < n && is_moved(aliases, #[trigger] keys[i], name)
                    && all[keys[i]].line_changes.contains(c)
            &&& history_in(after, name).authors.contains(author) <==> history_in(
                all,
                name,
            ).authors.contains(author) || exists|i: int|
                0 <= i < n && is_moved(aliases, #[trigger] keys[i], name)
                    && all[keys[i]].authors.contains(author)
        }),
    decreases n,
{
    if n > 0 {
        lemma_carried(all, keys, aliases, n - 1, name, c, author);
        let before = carried_over(all, keys, aliases, n - 1);
        let after = carried_over(all, keys, aliases, n);
        let path = keys[n - 1];
        if is_moved(aliases, path, name) {
            let old = history_in(before, name);
            let more = all[path];
            assert(after[name] == joined_history(old, more));
            lemma_contains_either(old.line_changes, more.line_changes, c);
            assert(is_moved(aliases, keys[n - 1], name));
        } else {
            assert(history_in(after, name) == history_in(before, name));
            assert(after.contains_key(name) == before.contains_key(name));
        }
    }
}

proof fn lemma_contains_either(a: Seq<LineChange>, b: Seq<LineChange>, c: LineChange)
    ensures
        (a + b).contains(c) <==> a.contains(c) || b.contains(c),
{
    let s = a + b;
    if s.contains(c) {
        let i = choose|i: int| 0 <= i < s.len() && s[i] == c;
        if i < a.len() {
            assert(a[i] == c);
        } else {
            assert(b[i - a.len()] == c);
        }
    }
    if a.contains(c) {
        let i = choose|i: int| 0 <= i < a.len() && a[i] == c;
        assert(s[i] == c);
    }
    if b.contains(c) {
        let i = choose|i: int| 0 <= i < b.len() && b[i] == c;
        assert(s[a.len() + i] == c);
    }
}

} // verus!
