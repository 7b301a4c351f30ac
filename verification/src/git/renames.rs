//! Carries the history of files over to the names they have now.

use super::churn::GitAnalyzer;
use super::history::{add_history, histories, history_in, joined_history, with_history};
use crate::cache::{FileHistory, GitCacheEntry, LineChange};
use crate::table::{ascending, TextMap, TextSet};
use vstd::prelude::*;

verus! {

/// The new name of each renamed file; a later renaming replaces an earlier one.
pub open spec fn alias_map(renames: Seq<(String, String)>) -> Map<Seq<char>, Seq<char>>
    decreases renames.len(),
{
    if renames.len() == 0 {
        Map::empty()
    } else {
        alias_map(renames.drop_last()).insert(renames.last().0@, renames.last().1@)
    }
}

/// The texts of a map.
pub open spec fn named(map: Map<Seq<char>, String>) -> Map<Seq<char>, Seq<char>> {
    map.map_values(|s: String| s@)
}

/// The name at the end of a chain of renamings, in which no name is left twice.
pub open spec fn resolved(
    aliases: Map<Seq<char>, Seq<char>>,
    path: Seq<char>,
    seen: Set<Seq<char>>,
) -> Seq<char>
    decreases aliases.dom().difference(seen).len(),
    when aliases.dom().finite()
{
    if aliases.contains_key(path) && !seen.contains(path) {
        proof {
            lemma_seen_shrinks(aliases.dom(), seen, path);
        }
        resolved(aliases, aliases[path], seen.insert(path))
    } else {
        path
    }
}

/// Seeing a name leaves fewer to see.
pub proof fn lemma_seen_shrinks(dom: Set<Seq<char>>, seen: Set<Seq<char>>, path: Seq<char>)
    requires
        dom.finite(),
        dom.contains(path),
        !seen.contains(path),
    ensures
        dom.difference(seen.insert(path)).len() < dom.difference(seen).len(),
{
    assert(dom.difference(seen.insert(path)) =~= dom.difference(seen).remove(path));
}

/// The name that a file has now.
pub open spec fn current_name(aliases: Map<Seq<char>, Seq<char>>, path: Seq<char>) -> Seq<char> {
    resolved(aliases, path, Set::empty())
}

/// There are finitely many renamings.
proof fn lemma_aliases_finite(renames: Seq<(String, String)>)
    ensures
        alias_map(renames).dom().finite(),
    decreases renames.len(),
{
    if renames.len() > 0 {
        lemma_aliases_finite(renames.drop_last());
    }
}

/// The name after `k` renamings.
pub open spec fn renamed(aliases: Map<Seq<char>, Seq<char>>, path: Seq<char>, k: nat) -> Seq<char>
    decreases k,
{
    if k == 0 {
        path
    } else {
        aliases[renamed(aliases, path, (k - 1) as nat)]
    }
}

/// Whether some renamings lead from one name to another.
pub open spec fn leads_to(
    aliases: Map<Seq<char>, Seq<char>>,
    from: Seq<char>,
    to: Seq<char>,
) -> bool {
    exists|k: nat| k > 0 && #[trigger] renamed(aliases, from, k) == to
}

/// The name that a file has now is renamed no further, unless it lies on a circle
/// of renamings.
pub proof fn lemma_current_name_is_final(aliases: Map<Seq<char>, Seq<char>>, path: Seq<char>)
    requires
        aliases.dom().finite(),
    ensures
        aliases.contains_key(current_name(aliases, path)) ==> leads_to(
            aliases,
            current_name(aliases, path),
            current_name(aliases, path),
        ),
{
    lemma_resolved_is_final(aliases, path, Set::empty());
}

proof fn lemma_resolved_is_final(
    aliases: Map<Seq<char>, Seq<char>>,
    path: Seq<char>,
    seen: Set<Seq<char>>,
)
    requires
        aliases.dom().finite(),
        forall|s: Seq<char>| #[trigger] seen.contains(s) ==> leads_to(aliases, s, path),
    ensures
        aliases.contains_key(resolved(aliases, path, seen)) ==> leads_to(
            aliases,
            resolved(aliases, path, seen),
            resolved(aliases, path, seen),
        ),
    decreases aliases.dom().difference(seen).len(),
{
    if aliases.contains_key(path) && !seen.contains(path) {
        lemma_seen_shrinks(aliases.dom(), seen, path);
        let next = aliases[path];
        assert forall|s: Seq<char>| #[trigger] seen.insert(path).contains(s) implies leads_to(
            aliases,
            s,
            next,
        ) by {
            if s == path {
                assert(renamed(aliases, s, 0) == path);
                assert(renamed(aliases, s, 1) == next);
            } else {
                assert(seen.contains(s));
                let k = choose|k: nat| k > 0 && #[trigger] renamed(aliases, s, k) == path;
                assert(renamed(aliases, s, k + 1) == next);
            }
        }
        lemma_resolved_is_final(aliases, next, seen.insert(path));
    }
}

/// A name that nothing renames is the current name.
pub proof fn lemma_unrenamed(aliases: Map<Seq<char>, Seq<char>>, path: Seq<char>)
    requires
        aliases.dom().finite(),
        !aliases.contains_key(path),
    ensures
        current_name(aliases, path) == path,
{
}

/// The histories after those of the first `n` files are carried over to the names
/// that the files have now.
pub open spec fn carried_over(
    all: Map<Seq<char>, FileHistory>,
    keys: Seq<Seq<char>>,
    aliases: Map<Seq<char>, Seq<char>>,
    n: int,
) -> Map<Seq<char>, FileHistory>
    decreases n,
{
    if n <= 0 {
        all
    } else {
        let before = carried_over(all, keys, aliases, n - 1);
        let path = keys[n - 1];
        let name = current_name(aliases, path);
        if name == path {
            before
        } else {
            with_history(before, name, all[path])
        }
    }
}

/// Whether a history holds all that another does.
pub open spec fn holds(a: FileHistory, b: FileHistory) -> bool {
    &&& b.times_modified <= a.times_modified
    &&& b.bug_fix_commits <= a.bug_fix_commits
    &&& b.authors.subset_of(a.authors)
    &&& forall|c: LineChange| #[trigger]
        b.line_changes.contains(c) ==> a.line_changes.contains(c)
}

proof fn lemma_holds_joined(a: FileHistory, b: FileHistory)
    requires
        a.times_modified <= usize::MAX,
        a.bug_fix_commits <= usize::MAX,
        b.times_modified <= usize::MAX,
        b.bug_fix_commits <= usize::MAX,
    ensures
        holds(joined_history(a, b), a),
        holds(joined_history(a, b), b),
        joined_history(a, b).times_modified <= usize::MAX,
        joined_history(a, b).bug_fix_commits <= usize::MAX,
{
    let sum = a.line_changes + b.line_changes;
    assert forall|c: LineChange| #[trigger] a.line_changes.contains(c) implies sum.contains(c) by {
        let i = choose|i: int| 0 <= i < a.line_changes.len() && a.line_changes[i] == c;
        assert(sum[i] == c);
    }
    assert forall|c: LineChange| #[trigger] b.line_changes.contains(c) implies sum.contains(c) by {
        let i = choose|i: int| 0 <= i < b.line_changes.len() && b.line_changes[i] == c;
        assert(sum[a.line_changes.len() + i] == c);
    }
}

proof fn lemma_carried_grows(
    all: Map<Seq<char>, FileHistory>,
    keys: Seq<Seq<char>>,
    aliases: Map<Seq<char>, Seq<char>>,
    n: int,
    path: Seq<char>,
)
    requires
        super::history::counts_fit(all),
        0 <= n <= keys.len(),
        forall|i: int| 0 <= i < keys.len() ==> all.contains_key(#[trigger] keys[i]),
    ensures
        super::history::counts_fit(carried_over(all, keys, aliases, n)),
        all.contains_key(path) ==> carried_over(all, keys, aliases, n).contains_key(path) && holds(
            carried_over(all, keys, aliases, n)[path],
            all[path],
        ),
        forall|i: int|
            0 <= i < n && current_name(aliases, #[trigger] keys[i]) == path
                ==> carried_over(all, keys, aliases, n).contains_key(path) && holds(
                carried_over(all, keys, aliases, n)[path],
                all[keys[i]],
            ),
    decreases n,
{
    if n > 0 {
        lemma_carried_grows(all, keys, aliases, n - 1, path);
        let before = carried_over(all, keys, aliases, n - 1);
        let p = keys[n - 1];
        let name = current_name(aliases, p);
        assert(all.contains_key(p));
        if name != p {
            lemma_holds_joined(history_in(before, name), all[p]);
        }
    }
}

/// The history of a renamed file is told under the name that the file has now,
/// and nothing known of any file is lost.
pub proof fn lemma_renamed_files_keep_their_history(
    all: Map<Seq<char>, FileHistory>,
    keys: Seq<Seq<char>>,
    aliases: Map<Seq<char>, Seq<char>>,
    path: Seq<char>,
)
    requires
        super::history::counts_fit(all),
        forall|i: int| 0 <= i < keys.len() ==> all.contains_key(#[trigger] keys[i]),
        keys.contains(path),
    ensures
        ({
            let after = carried_over(all, keys, aliases, keys.len() as int);
            let name = current_name(aliases, path);
            &&& after.contains_key(name) && holds(after[name], all[path])
            &&& after.contains_key(path) && holds(after[path], all[path])
        }),
{
    let n = keys.len() as int;
    let i = choose|i: int| 0 <= i < keys.len() && keys[i] == path;
    assert(all.contains_key(keys[i]));
    lemma_carried_grows(all, keys, aliases, n, path);
    lemma_carried_grows(all, keys, aliases, n, current_name(aliases, path));
    assert(current_name(aliases, keys[i]) == current_name(aliases, path));
}

impl GitAnalyzer {
    /// Follows a chain of renamings to its end.
    pub fn resolve_rename_alias(path: &str, aliases: &TextMap<String>) -> (name: String)
        ensures
            name@ == current_name(named(aliases@), path@),
    {
        let ghost map = named(aliases@);
        proof {
            lemma_named_finite(*aliases);
        }
        let n = aliases.len();
        let mut current = path.to_string();
        let mut seen = TextSet::new();
        loop
            invariant
                map == named(aliases@),
                map.dom().finite(),
                resolved(map, current@, seen@) == current_name(map, path@),
            decreases map.dom().difference(seen@).len(),
        {
            match aliases.get(current.as_str()) {
                None => {
                    return current;
                },
                Some(next) => {
                    let ghost before = seen@;
                    if !seen.insert(current.clone()) {
                        return current;
                    }
                    proof {
                        lemma_seen_shrinks(map.dom(), before, current@);
                    }
                    current = next.clone();
                },
            }
        }
    }

    /// Adds the history of every renamed file to that of the name it has now.
    pub fn apply_rename_aliases(
        cache: &mut TextMap<GitCacheEntry>,
        renames: &Vec<(String, String)>,
    )
        ensures
            histories(final(cache)@) == carried_over(
                histories(old(cache)@),
                old(cache).keys(),
                alias_map(renames@),
                old(cache).keys().len() as int,
            ),
    {
        let mut aliases: TextMap<String> = TextMap::new();
        assert(named(aliases@) =~= Map::<Seq<char>, Seq<char>>::empty());
        for i in 0..renames.len()
            invariant
                named(aliases@) == alias_map(renames@.take(i as int)),
        {
            assert(renames@.take(i + 1).drop_last() == renames@.take(i as int));
            let ghost before = aliases@;
            let _replaced = aliases.insert(renames[i].0.clone(), renames[i].1.clone());
            assert(named(aliases@) =~= alias_map(renames@.take(i + 1)));
        }
        assert(renames@.take(renames.len() as int) == renames@);
        let ghost map = alias_map(renames@);
        let ghost all = histories(cache@);
        let ghost keys = cache.keys();
        let n: usize = cache.len();
        proof {
            TextMap::lemma_view(&*cache);
        }
        // What to carry over is settled before anything is.
        let mut moves: Vec<(String, GitCacheEntry)> = Vec::new();
        for i in 0..n
            invariant
                n == keys.len(),
                keys == cache.keys(),
                cache.values().len() == n,
                ascending(keys),
                all == histories(cache@),
                map == named(aliases@),
                forall|i: int|
                    0 <= i < keys.len() ==> cache@.contains_key(#[trigger] keys[i])
                        && cache@[keys[i]] == cache.values()[i],
                carried_over(all, keys, map, i as int) == moved(all, moves@),
        {
            let path = cache.key(i);
            let name = Self::resolve_rename_alias(path.as_str(), &aliases);
            assert(cache@.contains_key(keys[i as int]));
            if !name.as_str().eq(path.as_str()) {
                let ghost before = moves@;
                moves.push((name, cache.value(i).copy()));
                proof {
                    assert(moves@.drop_last() == before);
                }
            }
        }
        let ghost planned = moves@;
        let mut queue: Vec<(String, GitCacheEntry)> = Vec::new();
        while moves.len() > 0
            invariant
                moves.len() + queue.len() == planned.len(),
                moves@ == planned.take(moves.len() as int),
                forall|j: int|
                    0 <= j < queue.len() ==> #[trigger] queue@[j] == planned[planned.len() - 1 - j],
            decreases moves.len(),
        {
            let ghost left = moves.len();
            if let Some(m) = moves.pop() {
                assert(m == planned[left - 1]);
                queue.push(m);
            }
        }
        assert(planned.take(0) == Seq::<(String, GitCacheEntry)>::empty());
        while queue.len() > 0
            invariant
                queue.len() <= planned.len(),
                forall|j: int|
                    0 <= j < queue.len() ==> #[trigger] queue@[j] == planned[planned.len() - 1 - j],
                histories(cache@) == moved(all, planned.take(planned.len() - queue.len())),
            decreases queue.len(),
        {
            let ghost done = planned.len() - queue.len();
            assert(planned.take(done + 1).drop_last() == planned.take(done));
            assert(planned.take(done + 1).last() == planned[done]);
            let ghost left = queue.len();
            assert(queue@[left - 1] == planned[done]);
            if let Some((name, entry)) = queue.pop() {
                add_history(cache, name, entry);
            }
        }
        assert(planned.take(planned.len() as int) == planned);
    }
}

/// The histories after some are added to those of other names.
spec fn moved(
    all: Map<Seq<char>, FileHistory>,
    moves: Seq<(String, GitCacheEntry)>,
) -> Map<Seq<char>, FileHistory>
    decreases moves.len(),
{
    if moves.len() == 0 {
        all
    } else {
        with_history(moved(all, moves.drop_last()), moves.last().0@, moves.last().1@)
    }
}

proof fn lemma_named_finite(aliases: TextMap<String>)
    ensures
        named(aliases@).dom().finite(),
{
    assert(named(aliases@).dom() =~= aliases.keys().to_set());
    vstd::seq_lib::seq_to_set_is_finite(aliases.keys());
}

} // verus!
