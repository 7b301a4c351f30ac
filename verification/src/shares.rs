//! Who did what share of the work on a project.

use crate::authors::{
    changes_by, contribution, counts_at, credit, is_contributor, lemma_bus_factor_is_least,
    makes_up_half, sum_of, LargestFirst,
};
use crate::cache::{GitCacheEntry, LineChange};
use crate::metrics::ProjectStats;
use crate::order::{is_stable_arrangement, is_stable_sort, lemma_arrangement_covers};
use crate::stats::{is_bus_factor_of, is_project, tells_contributions};
use crate::table::{lemma_ascending_distinct, TextMap};
use vstd::prelude::*;

verus! {

/// Whether a piece of work on a file is an author's: one of the changes to it, or where
/// none are known, one of the times that it was modified, if the author is among those
/// who did so.
pub open spec fn did(file: GitCacheEntry, author: Seq<char>, piece: int) -> bool {
    if file.line_changes@.len() > 0 {
        0 <= piece < file.line_changes@.len() && file.line_changes@[piece].author@ == author
    } else {
        0 <= piece < file.times_modified && file.authors@.contains(author)
    }
}

/// The work of an author, each piece by its file.
pub open spec fn work(files: Seq<GitCacheEntry>, author: Seq<char>) -> Set<(int, int)> {
    Set::new(|u: (int, int)| 0 <= u.0 < files.len() && did(files[u.0], author, u.1))
}

/// The work of a group of authors, each piece by its author.
pub open spec fn work_of(files: Seq<GitCacheEntry>, group: Set<Seq<char>>) -> Set<
    (Seq<char>, (int, int)),
> {
    Set::new(|w: (Seq<char>, (int, int))| group.contains(w.0) && work(files, w.0).contains(w.1))
}

/// All work, each piece by its author.
pub open spec fn all_work(files: Seq<GitCacheEntry>) -> Set<(Seq<char>, (int, int))> {
    Set::new(|w: (Seq<char>, (int, int))| work(files, w.0).contains(w.1))
}

spec fn changes_of(changes: Seq<LineChange>, author: Seq<char>) -> Set<int> {
    Set::new(|k: int| 0 <= k < changes.len() && changes[k].author@ == author)
}

proof fn lemma_changes_counted(changes: Seq<LineChange>, author: Seq<char>)
    ensures
        changes_of(changes, author).finite(),
        changes_of(changes, author).len() == changes_by(changes, author),
    decreases changes.len(),
{
    if changes.len() == 0 {
        assert(changes_of(changes, author) =~= Set::<int>::empty());
    } else {
        let had = changes.drop_last();
        lemma_changes_counted(had, author);
        if changes.last().author@ == author {
            assert(changes_of(changes, author) =~= changes_of(had, author).insert(
                had.len() as int,
            ));
        } else {
            assert(changes_of(changes, author) =~= changes_of(had, author));
        }
    }
}

proof fn lemma_credit_counted(file: GitCacheEntry, author: Seq<char>)
    ensures
        ({
            let s = Set::new(|k: int| did(file, author, k));
            s.finite() && s.len() == credit(file@, author)
        }),
{
    let s = Set::new(|k: int| did(file, author, k));
    if file.line_changes@.len() > 0 {
        lemma_changes_counted(file.line_changes@, author);
        assert(s =~= changes_of(file.line_changes@, author));
    } else if file.authors@.contains(author) {
        vstd::set_lib::lemma_int_range(0, file.times_modified as int);
        assert(s =~= vstd::set_lib::set_int_range(0, file.times_modified as int));
    } else {
        assert(s =~= Set::<int>::empty());
    }
}

/// What an author is credited with is how much the author did.
proof fn lemma_work_counted(files: Seq<GitCacheEntry>, author: Seq<char>)
    ensures
        work(files, author).finite(),
        work(files, author).len() == contribution(files, author),
        contribution(files, author) > 0 ==> is_contributor(files, author),
    decreases files.len(),
{
    if files.len() == 0 {
        assert(work(files, author) =~= Set::<(int, int)>::empty());
    } else {
        let had = files.drop_last();
        let n = had.len() as int;
        lemma_work_counted(had, author);
        lemma_credit_counted(files.last(), author);
        let pieces = Set::new(|k: int| did(files.last(), author, k));
        let put = |k: int| (n, k);
        let new = pieces.map(put);
        vstd::set_lib::lemma_map_size(pieces, new, put);
        let all = work(files, author);
        assert forall|u: (int, int)| #[trigger] all.contains(u) <==> (work(had, author)
            + new).contains(u) by {
            if all.contains(u) && u.0 == n {
                assert(pieces.contains(u.1));
                assert(put(u.1) == u);
            }
            if all.contains(u) && u.0 != n {
                assert(had[u.0] == files[u.0]);
            }
            if work(had, author).contains(u) {
                assert(had[u.0] == files[u.0]);
            }
        }
        assert(all =~= work(had, author) + new);
        assert(work(had, author).disjoint(new));
        vstd::set_lib::lemma_set_disjoint_lens(work(had, author), new);
    }
}

/// One more author adds what that author did.
proof fn lemma_one_more(files: Seq<GitCacheEntry>, group: Set<Seq<char>>, author: Seq<char>)
    requires
        !group.contains(author),
        work_of(files, group).finite(),
    ensures
        work_of(files, group.insert(author)).finite(),
        work_of(files, group.insert(author)).len() == work_of(files, group).len() + work(
            files,
            author,
        ).len(),
{
    lemma_work_counted(files, author);
    let mine = work(files, author);
    let put = |u: (int, int)| (author, u);
    let new = mine.map(put);
    vstd::set_lib::lemma_map_size(mine, new, put);
    let all = work_of(files, group.insert(author));
    let had = work_of(files, group);
    assert forall|w: (Seq<char>, (int, int))| #[trigger] all.contains(w) <==> (had + new).contains(
        w,
    ) by {
        if all.contains(w) && w.0 == author {
            assert(mine.contains(w.1));
            assert(put(w.1) == w);
        }
    }
    assert(all =~= had + new);
    assert(had.disjoint(new));
    vstd::set_lib::lemma_set_disjoint_lens(had, new);
}

proof fn lemma_sum_grows(counts: Seq<usize>, m: int)
    requires
        0 <= m < counts.len(),
    ensures
        sum_of(counts.take(m + 1)) == sum_of(counts.take(m)) + counts[m],
{
    assert(counts.take(m + 1).drop_last() =~= counts.take(m));
    assert(counts.take(m + 1).last() == counts[m]);
}

/// The first of some authors did what their counts add up to.
proof fn lemma_first_did(
    files: Seq<GitCacheEntry>,
    names: Seq<Seq<char>>,
    counts: Seq<usize>,
    m: int,
)
    requires
        names.len() == counts.len(),
        names.no_duplicates(),
        0 <= m <= names.len(),
        forall|p: int|
            0 <= p < names.len() ==> counts[p] == work(files, #[trigger] names[p]).len(),
    ensures
        work_of(files, names.take(m).to_set()).finite(),
        work_of(files, names.take(m).to_set()).len() == sum_of(counts.take(m)),
        names.take(m).to_set().finite(),
        names.take(m).to_set().len() == m,
    decreases m,
{
    let group = names.take(m).to_set();
    if m == 0 {
        assert(group =~= Set::<Seq<char>>::empty());
        assert(work_of(files, group) =~= Set::<(Seq<char>, (int, int))>::empty());
    } else {
        lemma_first_did(files, names, counts, m - 1);
        let shorter = names.take(m - 1);
        let longer = names.take(m);
        let before = shorter.to_set();
        let name = names[m - 1];
        assert forall|x: Seq<char>| #[trigger] group.contains(x) <==> before.insert(
            name,
        ).contains(x) by {
            if group.contains(x) {
                let p = choose|p: int| 0 <= p < m && longer[p] == x;
                if p < m - 1 {
                    assert(shorter[p] == x);
                }
            }
            if before.contains(x) {
                let p = choose|p: int| 0 <= p < m - 1 && shorter[p] == x;
                assert(longer[p] == x);
            }
            if x == name {
                assert(longer[m - 1] == x);
            }
        }
        assert(group =~= before.insert(name));
        if before.contains(name) {
            let p = choose|p: int| 0 <= p < m - 1 && shorter[p] == name;
            assert(names[p] == names[m - 1]);
        }
        lemma_one_more(files, before, name);
        lemma_sum_grows(counts, m - 1);
    }
}

/// Where the authors of a group stand among the first of all.
proof fn lemma_group_did(
    files: Seq<GitCacheEntry>,
    names: Seq<Seq<char>>,
    counts: Seq<usize>,
    group: Set<Seq<char>>,
    m: int,
) -> (places: Seq<int>)
    requires
        names.len() == counts.len(),
        names.no_duplicates(),
        0 <= m <= names.len(),
        group.finite(),
        forall|p: int|
            0 <= p < names.len() ==> counts[p] == work(files, #[trigger] names[p]).len(),
    ensures
        ({
            let among = group.intersect(names.take(m).to_set());
            &&& work_of(files, among).finite()
            &&& work_of(files, among).len() == sum_of(counts_at(counts, places))
            &&& among.finite()
            &&& among.len() == places.len()
        }),
        forall|i: int| 0 <= i < places.len() ==> 0 <= #[trigger] places[i] < m,
        forall|i: int, j: int|
            #![trigger places[i], places[j]]
            0 <= i < j < places.len() ==> places[i] < places[j],
    decreases m,
{
    let among = group.intersect(names.take(m).to_set());
    if m == 0 {
        assert(among =~= Set::<Seq<char>>::empty());
        assert(work_of(files, among) =~= Set::<(Seq<char>, (int, int))>::empty());
        assert(counts_at(counts, Seq::empty()) =~= Seq::<usize>::empty());
        Seq::empty()
    } else {
        let had = lemma_group_did(files, names, counts, group, m - 1);
        let shorter = names.take(m - 1);
        let longer = names.take(m);
        let before = group.intersect(shorter.to_set());
        let name = names[m - 1];
        assert forall|x: Seq<char>| #[trigger] longer.to_set().contains(x)
            <==> shorter.to_set().insert(name).contains(x) by {
            if longer.to_set().contains(x) {
                let p = choose|p: int| 0 <= p < m && longer[p] == x;
                if p < m - 1 {
                    assert(shorter[p] == x);
                }
            }
            if shorter.to_set().contains(x) {
                let p = choose|p: int| 0 <= p < m - 1 && shorter[p] == x;
                assert(longer[p] == x);
            }
            if x == name {
                assert(longer[m - 1] == x);
            }
        }
        if shorter.to_set().contains(name) {
            let p = choose|p: int| 0 <= p < m - 1 && shorter[p] == name;
            assert(names[p] == names[m - 1]);
        }
        if group.contains(name) {
            assert(among =~= before.insert(name));
            lemma_one_more(files, before, name);
            let places = had.push(m - 1);
            assert(counts_at(counts, places).drop_last() =~= counts_at(counts, had));
            assert(counts_at(counts, places).last() == counts[m - 1]);
            places
        } else {
            assert(among =~= before);
            had
        }
    }
}

/// The bus factor is the size of the smallest group whose work is at least half of all:
/// there is one of that size, and no smaller group has done as much.
pub proof fn lemma_bus_factor_is_the_smallest_half(
    stats: ProjectStats,
    functions: Seq<crate::metrics::FunctionMetrics>,
    files: Seq<GitCacheEntry>,
    authors: nat,
)
    requires
        is_project(stats, functions, files, authors),
        forall|a: Seq<char>| #[trigger] work(files, a).len() <= usize::MAX,
    ensures
        stats.total_unique_authors == authors,
        all_work(files).finite(),
        exists|group: Set<Seq<char>>|
            group.finite() && group.len() == stats.bus_factor && 2 * #[trigger] work_of(
                files,
                group,
            ).len() >= all_work(files).len(),
        forall|group: Set<Seq<char>>|
            group.finite() && group.len() < stats.bus_factor ==> 2 * #[trigger] work_of(
                files,
                group,
            ).len() < all_work(files).len(),
{
    let k = stats.bus_factor as nat;
    assert(is_bus_factor_of(k, files));
    let map = choose|map: TextMap<usize>| #[trigger]
        tells_contributions(map, files) && crate::authors::is_bus_factor(k, map.values());
    let counts = map.values();
    let sorted = choose|sorted: Seq<usize>| #[trigger]
        is_stable_sort(&LargestFirst, counts, sorted) && makes_up_half(sorted, k);
    let order = choose|order: Seq<int>|
        is_stable_arrangement(&LargestFirst, counts, sorted, order);
    let keys = map.keys();
    TextMap::lemma_view(&map);
    lemma_ascending_distinct(keys);
    let names = Seq::new(sorted.len(), |p: int| keys[order[p]]);
    assert forall|p: int| 0 <= p < names.len() implies sorted[p] == work(
        files,
        #[trigger] names[p],
    ).len() by {
        let a = names[p];
        lemma_work_counted(files, a);
        assert(work(files, a).len() <= usize::MAX);
        assert(crate::authors::held_of(map@, a) == crate::authors::held(contribution(files, a)));
        assert(map@.contains_key(keys[order[p]]));
        assert(sorted[p] == counts[order[p]]);
    }
    assert forall|p: int, q: int| 0 <= p < names.len() && 0 <= q < names.len() && p
        != q implies names[p] != names[q] by {
        if p < q {
            assert(order[p] != order[q]);
        } else {
            assert(order[q] != order[p]);
        }
        assert(keys[order[p]] != keys[order[q]]);
    }
    let n = names.len() as int;
    lemma_first_did(files, names, sorted, n);
    assert(names.take(n) =~= names);
    assert(sorted.take(n) =~= sorted);
    assert forall|w: (Seq<char>, (int, int))| #[trigger] all_work(files).contains(w) implies names.to_set().contains(
        w.0,
    ) by {
        lemma_named(files, map, order, names, w.0, w.1);
    }
    assert(all_work(files) =~= work_of(files, names.to_set()));
    if sum_of(sorted) == 0 {
        let none = Set::<Seq<char>>::empty();
        assert(work_of(files, none).len() >= 0);
        assert(none.finite() && none.len() == 0);
    } else {
        lemma_first_did(files, names, sorted, k as int);
        let group = names.take(k as int).to_set();
        assert(2 * work_of(files, group).len() >= all_work(files).len());
    }
    assert forall|group: Set<Seq<char>>| group.finite() && group.len() < stats.bus_factor implies 2
        * #[trigger] work_of(files, group).len() < all_work(files).len() by {
        let places = lemma_group_did(files, names, sorted, group, n);
        let among = group.intersect(names.to_set());
        vstd::set_lib::lemma_len_subset(among, group);
        lemma_bus_factor_is_least(k, counts, sorted, places);
        assert(work_of(files, group) =~= work_of(files, among)) by {
            assert forall|w: (Seq<char>, (int, int))| #[trigger]
                work_of(files, group).contains(w) implies work_of(files, among).contains(w) by {
                assert(all_work(files).contains(w));
            }
        }
    }
}

proof fn lemma_named(
    files: Seq<GitCacheEntry>,
    map: TextMap<usize>,
    order: Seq<int>,
    names: Seq<Seq<char>>,
    author: Seq<char>,
    piece: (int, int),
)
    requires
        tells_contributions(map, files),
        crate::order::is_arrangement(order, map.keys().len()),
        names == Seq::new(map.keys().len(), |p: int| map.keys()[order[p]]),
        work(files, author).contains(piece),
    ensures
        names.contains(author),
{
    lemma_work_counted(files, author);
    if work(files, author).len() == 0 {
        assert(work(files, author) =~= Set::<(int, int)>::empty());
    }
    assert(map@.contains_key(author));
    let keys = map.keys();
    let i = choose|i: int| 0 <= i < keys.len() && keys[i] == author;
    lemma_arrangement_covers(order, keys.len(), i);
    let p = choose|p: int| 0 <= p < order.len() && order[p] == i;
    assert(names[p] == author);
}

} // verus!
