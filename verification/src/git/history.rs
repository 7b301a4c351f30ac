//! Puts the changes of many commits together.

use super::churn::GitAnalyzer;
use crate::cache::{FileHistory, GitCacheEntry};
use crate::table::TextMap;
use vstd::prelude::*;

verus! {

/// The last line of a range that stands for a whole file.
pub const FULL_FILE_RANGE_END_LINE: u32 = 1_000_000_000;

/// A sum of counts; counts stop at the largest number.
pub open spec fn plus(a: nat, b: nat) -> nat {
    if a + b <= usize::MAX {
        a + b
    } else {
        usize::MAX as nat
    }
}

/// Adds two counts.
pub fn add_counts(a: usize, b: usize) -> (r: usize)
    ensures
        r == plus(a as nat, b as nat),
{
    if a <= usize::MAX - b {
        a + b
    } else {
        usize::MAX
    }
}

/// A history followed by another.
pub open spec fn joined_history(a: FileHistory, b: FileHistory) -> FileHistory {
    FileHistory {
        times_modified: plus(a.times_modified, b.times_modified),
        bug_fix_commits: plus(a.bug_fix_commits, b.bug_fix_commits),
        authors: a.authors.union(b.authors),
        line_changes: a.line_changes + b.line_changes,
    }
}

impl GitCacheEntry {
    /// Adds another history to this one.
    pub fn absorb(&mut self, other: GitCacheEntry)
        ensures
            final(self)@ == joined_history(old(self)@, other@),
    {
        let mut more = other.line_changes;
        self.times_modified = add_counts(self.times_modified, other.times_modified);
        self.bug_fix_commits = add_counts(self.bug_fix_commits, other.bug_fix_commits);
        self.authors.absorb(&other.authors);
        self.line_changes.append(&mut more);
    }
}

/// The histories of files.
pub open spec fn histories(cache: Map<Seq<char>, GitCacheEntry>) -> Map<Seq<char>, FileHistory> {
    cache.map_values(|e: GitCacheEntry| e@)
}

/// The history of a file, which is empty where none is known.
pub open spec fn history_in(all: Map<Seq<char>, FileHistory>, path: Seq<char>) -> FileHistory {
    if all.contains_key(path) {
        all[path]
    } else {
        FileHistory::empty()
    }
}

/// The histories after one more is added to that of a file.
pub open spec fn with_history(
    all: Map<Seq<char>, FileHistory>,
    path: Seq<char>,
    more: FileHistory,
) -> Map<Seq<char>, FileHistory> {
    all.insert(path, joined_history(history_in(all, path), more))
}

/// Adds a history to that of a file.
pub fn add_history(cache: &mut TextMap<GitCacheEntry>, path: String, entry: GitCacheEntry)
    ensures
        histories(final(cache)@) == with_history(histories(old(cache)@), path@, entry@),
{
    let ghost before = cache@;
    match cache.position(path.as_str()) {
        Ok(i) => {
            let mut known = cache.replace(i, GitCacheEntry::empty());
            known.absorb(entry);
            let ghost sum = known;
            let _placeholder = cache.replace(i, known);
            assert(histories(cache@) =~= with_history(histories(before), path@, entry@));
        },
        Err(_) => {
            let mut fresh = GitCacheEntry::empty();
            fresh.absorb(entry);
            let ghost sum = fresh;
            let ghost key = path@;
            let _none = cache.insert(path, fresh);
            assert(histories(cache@) =~= with_history(histories(before), key, entry@));
        },
    }
}

/// Two collections of histories put together: where both know a file, the second
/// history follows the first.
pub open spec fn merged_histories(
    a: Map<Seq<char>, FileHistory>,
    b: Map<Seq<char>, FileHistory>,
) -> Map<Seq<char>, FileHistory> {
    Map::new(
        |path: Seq<char>| a.contains_key(path) || b.contains_key(path),
        |path: Seq<char>| joined_history(history_in(a, path), history_in(b, path)),
    )
}

/// Joining with an empty history changes nothing.
pub proof fn lemma_join_empty(a: FileHistory)
    requires
        a.times_modified <= usize::MAX,
        a.bug_fix_commits <= usize::MAX,
    ensures
        joined_history(a, FileHistory::empty()) == a,
        joined_history(FileHistory::empty(), a) == a,
{
    assert(joined_history(a, FileHistory::empty()) =~= a);
    assert(joined_history(FileHistory::empty(), a) =~= a);
}

/// It does not matter in which groups histories are joined.
pub proof fn lemma_join_associative(a: FileHistory, b: FileHistory, c: FileHistory)
    ensures
        joined_history(joined_history(a, b), c) == joined_history(a, joined_history(b, c)),
{
    assert(joined_history(joined_history(a, b), c) =~= joined_history(a, joined_history(b, c)));
}

/// It does not matter in which groups collections of histories are put together,
/// so the work can be split among any number of workers.
pub proof fn lemma_merge_associative(
    a: Map<Seq<char>, FileHistory>,
    b: Map<Seq<char>, FileHistory>,
    c: Map<Seq<char>, FileHistory>,
)
    requires
        counts_fit(a),
        counts_fit(b),
        counts_fit(c),
    ensures
        merged_histories(merged_histories(a, b), c) == merged_histories(a, merged_histories(b, c)),
{
    let left = merged_histories(merged_histories(a, b), c);
    let right = merged_histories(a, merged_histories(b, c));
    assert forall|path: Seq<char>| left.contains_key(path) implies left[path] == right[path] by {
        let x = history_in(a, path);
        let y = history_in(b, path);
        let z = history_in(c, path);
        lemma_join_associative(x, y, z);
        lemma_join_empty(x);
        lemma_join_empty(y);
        lemma_join_empty(z);
        lemma_join_empty(FileHistory::empty());
        lemma_join_empty(joined_history(x, y));
        lemma_join_empty(joined_history(y, z));
    }
    assert(left =~= right);
}

/// The order in which histories are put together matters for nothing but the order
/// of the changes.
pub proof fn lemma_merge_commutes_but_for_order(
    a: Map<Seq<char>, FileHistory>,
    b: Map<Seq<char>, FileHistory>,
    path: Seq<char>,
)
    ensures
        merged_histories(a, b).dom() == merged_histories(b, a).dom(),
        merged_histories(a, b).contains_key(path) ==> ({
            let x = merged_histories(a, b)[path];
            let y = merged_histories(b, a)[path];
            &&& x.times_modified == y.times_modified
            &&& x.bug_fix_commits == y.bug_fix_commits
            &&& x.authors == y.authors
            &&& x.line_changes.to_multiset() == y.line_changes.to_multiset()
        }),
{
    assert(merged_histories(a, b).dom() =~= merged_histories(b, a).dom());
    let x = history_in(a, path);
    let y = history_in(b, path);
    assert(x.authors.union(y.authors) =~= y.authors.union(x.authors));
    vstd::seq_lib::lemma_multiset_commutative(x.line_changes, y.line_changes);
    vstd::seq_lib::lemma_multiset_commutative(y.line_changes, x.line_changes);
    assert(x.line_changes.to_multiset().add(y.line_changes.to_multiset())
        =~= y.line_changes.to_multiset().add(x.line_changes.to_multiset()));
}

/// Whether all counts are such as can be counted.
pub open spec fn counts_fit(all: Map<Seq<char>, FileHistory>) -> bool {
    forall|path: Seq<char>| #[trigger]
        all.contains_key(path) ==> all[path].times_modified <= usize::MAX
            && all[path].bug_fix_commits <= usize::MAX
}

/// The entries of a map, the last of which comes first.
fn reversed_entries(map: TextMap<GitCacheEntry>) -> (r: Vec<(String, GitCacheEntry)>)
    ensures
        r.len() == map.keys().len(),
        map.keys().len() == map.values().len(),
        crate::table::ascending(map.keys()),
        forall|i: int|
            0 <= i < r.len() ==> (#[trigger] r@[i]).0@ == map.keys()[r.len() - 1 - i] && r@[i].1
                == map.values()[r.len() - 1 - i],
{
    let ghost keys = map.keys();
    let ghost values = map.values();
    let mut entries = map.into_entries();
    let ghost all = entries@;
    let mut r: Vec<(String, GitCacheEntry)> = Vec::new();
    while entries.len() > 0
        invariant
            entries.len() + r.len() == all.len(),
            entries@ == all.take(entries.len() as int),
            forall|i: int| 0 <= i < r.len() ==> #[trigger] r@[i] == all[all.len() - 1 - i],
        decreases entries.len(),
    {
        let ghost n = entries.len();
        if let Some(e) = entries.pop() {
            assert(e == all[n - 1]);
            r.push(e);
        }
    }
    proof {
        assert(all.map_values(|e: (String, GitCacheEntry)| e.0@) == keys);
        assert(all.map_values(|e: (String, GitCacheEntry)| e.1) == values);
        assert forall|i: int| 0 <= i < r.len() implies (#[trigger] r@[i]).0@ == keys[r.len() - 1
            - i] && r@[i].1 == values[r.len() - 1 - i] by {
            let k = r.len() - 1 - i;
            assert(all.map_values(|e: (String, GitCacheEntry)| e.0@)[k] == all[k].0@);
            assert(all.map_values(|e: (String, GitCacheEntry)| e.1)[k] == all[k].1);
        }
    }
    r
}

/// The histories of files count what can be counted.
proof fn lemma_histories_fit(cache: Map<Seq<char>, GitCacheEntry>)
    ensures
        counts_fit(histories(cache)),
{
}

/// One more file to put together.
proof fn lemma_merge_step(
    a: Map<Seq<char>, FileHistory>,
    b: Map<Seq<char>, FileHistory>,
    path: Seq<char>,
    more: FileHistory,
)
    requires
        counts_fit(a),
        counts_fit(b),
        !b.contains_key(path),
        more.times_modified <= usize::MAX,
        more.bug_fix_commits <= usize::MAX,
    ensures
        merged_histories(a, b.insert(path, more)) == with_history(
            merged_histories(a, b),
            path,
            more,
        ),
{
    let left = merged_histories(a, b.insert(path, more));
    let right = with_history(merged_histories(a, b), path, more);
    assert forall|q: Seq<char>| left.contains_key(q) implies left[q] == right[q] by {
        lemma_join_empty(history_in(a, q));
        lemma_join_empty(FileHistory::empty());
        if q != path {
            assert(history_in(b.insert(path, more), q) == history_in(b, q));
        }
    }
    assert(left =~= right);
}

/// The first entries of a map.
spec fn first_entries(
    keys: Seq<Seq<char>>,
    values: Seq<GitCacheEntry>,
    n: int,
) -> Map<Seq<char>, FileHistory>
    decreases n,
{
    if n <= 0 {
        Map::empty()
    } else {
        first_entries(keys, values, n - 1).insert(keys[n - 1], values[n - 1]@)
    }
}

/// The first entries have the first keys.
proof fn lemma_first_entries(keys: Seq<Seq<char>>, values: Seq<GitCacheEntry>, n: int)
    requires
        0 <= n <= keys.len(),
        keys.len() == values.len(),
        crate::table::ascending(keys),
    ensures
        counts_fit(first_entries(keys, values, n)),
        forall|q: Seq<char>| #[trigger]
            first_entries(keys, values, n).contains_key(q) <==> keys.take(n).contains(q),
        forall|j: int|
            0 <= j < n ==> first_entries(keys, values, n)[#[trigger] keys[j]] == values[j]@,
    decreases n,
{
    crate::table::lemma_ascending_distinct(keys);
    if n > 0 {
        lemma_first_entries(keys, values, n - 1);
        let a = keys.take(n - 1);
        let b = keys.take(n);
        assert(b == a.push(keys[n - 1]));
        assert forall|q: Seq<char>| #[trigger]
            first_entries(keys, values, n).contains_key(q) <==> b.contains(q) by {
            vstd::seq_lib::lemma_seq_contains_after_push(a, keys[n - 1], q);
        }
    }
}

/// All entries of a map are its histories.
proof fn lemma_all_entries(map: TextMap<GitCacheEntry>)
    requires
        crate::table::ascending(map.keys()),
        map.keys().len() == map.values().len(),
    ensures
        first_entries(map.keys(), map.values(), map.keys().len() as int) == histories(map@),
{
    let keys = map.keys();
    let values = map.values();
    let n = keys.len() as int;
    lemma_first_entries(keys, values, n);
    TextMap::lemma_view(&map);
    assert(keys.take(n) == keys);
    let left = first_entries(keys, values, n);
    let right = histories(map@);
    assert forall|q: Seq<char>| left.contains_key(q) implies left[q] == right[q] by {
        let j = choose|j: int| 0 <= j < keys.len() && keys[j] == q;
        assert(left[keys[j]] == values[j]@);
        assert(map@[keys[j]] == values[j]);
    }
    assert(left =~= right);
}

impl GitAnalyzer {
    /// Adds the histories of one collection to those of another.
    pub fn merge_git_cache(target: &mut TextMap<GitCacheEntry>, source: TextMap<GitCacheEntry>)
        ensures
            histories(final(target)@) == merged_histories(
                histories(old(target)@),
                histories(source@),
            ),
    {
        let ghost before = histories(target@);
        let ghost keys = source.keys();
        let ghost values = source.values();
        let mut entries = reversed_entries(source);
        proof {
            lemma_histories_fit(target@);
            lemma_all_entries(source);
            assert forall|q: Seq<char>| before.contains_key(q) implies joined_history(
                #[trigger] before[q],
                FileHistory::empty(),
            ) == before[q] by {
                lemma_join_empty(before[q]);
            }
            assert(before =~= merged_histories(before, first_entries(keys, values, 0)));
        }
        let n: usize = entries.len();
        while entries.len() > 0
            invariant
                n == keys.len() == values.len(),
                entries.len() <= n,
                counts_fit(before),
                crate::table::ascending(keys),
                forall|i: int|
                    0 <= i < entries.len() ==> (#[trigger] entries@[i]).0@ == keys[n - 1 - i]
                        && entries@[i].1 == values[n - 1 - i],
                histories(target@) == merged_histories(
                    before,
                    first_entries(keys, values, n - entries.len()),
                ),
            decreases entries.len(),
        {
            let ghost done = n - entries.len();
            let ghost left = entries.len();
            assert(entries@[left - 1].0@ == keys[done]);
            if let Some((path, entry)) = entries.pop() {
                proof {
                    lemma_first_entries(keys, values, done);
                    crate::table::lemma_ascending_distinct(keys);
                    if keys.take(done).contains(keys[done]) {
                        let j = choose|j: int|
                            0 <= j < done && keys.take(done)[j] == keys[done];
                        assert(keys[j] == keys[done]);
                    }
                    lemma_merge_step(
                        before,
                        first_entries(keys, values, done),
                        keys[done],
                        values[done]@,
                    );
                }
                add_history(target, path, entry);
            }
        }
    }
}

} // verus!
