//! Who made the changes of a project, and how few people most of them come from.

use crate::cache::{FileHistory, GitCacheEntry, LineChange};
use crate::git::history::add_counts;
use crate::order::{is_stable_sort, stable_sort, Ranking};
use crate::table::{TextMap, TextSet};
use crate::text::views;
use vstd::prelude::*;

verus! {

/// How many of the changes are an author's.
pub open spec fn changes_by(changes: Seq<LineChange>, author: Seq<char>) -> nat
    decreases changes.len(),
{
    if changes.len() == 0 {
        0
    } else {
        changes_by(changes.drop_last(), author) + if changes.last().author@ == author {
            1nat
        } else {
            0nat
        }
    }
}

/// Whether an author is credited with a part in a file.
pub open spec fn is_credited(file: FileHistory, author: Seq<char>) -> bool {
    if file.line_changes.len() == 0 {
        file.authors.contains(author)
    } else {
        changes_by(file.line_changes, author) > 0
    }
}

/// How much of a file's history an author is credited with: the changes that the
/// author made, or where no changes are known, all times that the file was changed.
pub open spec fn credit(file: FileHistory, author: Seq<char>) -> nat {
    if file.line_changes.len() == 0 {
        if file.authors.contains(author) {
            file.times_modified
        } else {
            0
        }
    } else {
        changes_by(file.line_changes, author)
    }
}

/// Whether an author is credited with a part in any of the files.
pub open spec fn is_contributor(files: Seq<GitCacheEntry>, author: Seq<char>) -> bool
    decreases files.len(),
{
    files.len() > 0 && (is_contributor(files.drop_last(), author) || is_credited(
        files.last()@,
        author,
    ))
}

/// How much an author is credited with over all files.
pub open spec fn contribution(files: Seq<GitCacheEntry>, author: Seq<char>) -> nat
    decreases files.len(),
{
    if files.len() == 0 {
        0
    } else {
        contribution(files.drop_last(), author) + credit(files.last()@, author)
    }
}

/// A count as it is held; counts stop at the largest number.
pub open spec fn held(count: nat) -> nat {
    if count <= usize::MAX {
        count
    } else {
        usize::MAX as nat
    }
}

/// What a map holds of an author, which is nothing where it does not know them.
pub open spec fn held_of(map: Map<Seq<char>, usize>, author: Seq<char>) -> nat {
    if map.contains_key(author) {
        map[author] as nat
    } else {
        0
    }
}

/// Adds to what a map holds of an author.
fn add_credit(map: &mut TextMap<usize>, author: &String, more: usize)
    ensures
        forall|a: Seq<char>| #[trigger]
            final(map)@.contains_key(a) <==> old(map)@.contains_key(a) || a == author@,
        forall|a: Seq<char>| #[trigger]
            held_of(final(map)@, a) == if a == author@ {
                held(held_of(old(map)@, a) + more as nat)
            } else {
                held_of(old(map)@, a)
            },
{
    match map.position(author.as_str()) {
        Ok(i) => {
            let sum: usize = add_counts(*map.value(i), more);
            let _before = map.replace(i, sum);
        },
        Err(_) => {
            let _none = map.insert(author.clone(), more);
        },
    }
}

/// Credits the authors of a file whose single changes are not known.
fn add_file_author_contributions(map: &mut TextMap<usize>, entry: &GitCacheEntry)
    ensures
        forall|a: Seq<char>| #[trigger]
            final(map)@.contains_key(a) <==> old(map)@.contains_key(a) || entry.authors@.contains(
                a,
            ),
        forall|a: Seq<char>| #[trigger]
            held_of(final(map)@, a) == if entry.authors@.contains(a) {
                held(held_of(old(map)@, a) + entry.times_modified as nat)
            } else {
                held_of(old(map)@, a)
            },
{
    let names = entry.authors.items();
    let ghost list = entry.authors.list();
    let ghost before = map@;
    proof {
        crate::table::lemma_ascending_distinct(list);
    }
    for i in 0..names.len()
        invariant
            views(names@) == list,
            list.no_duplicates(),
            forall|a: Seq<char>| #[trigger]
                map@.contains_key(a) <==> before.contains_key(a) || list.take(i as int).contains(a),
            forall|a: Seq<char>| #[trigger]
                held_of(map@, a) == if list.take(i as int).contains(a) {
                    held(held_of(before, a) + entry.times_modified as nat)
                } else {
                    held_of(before, a)
                },
    {
        let ghost now = list.take(i as int);
        add_credit(map, &names[i], entry.times_modified);
        proof {
            assert(list[i as int] == names@[i as int]@);
            assert(list.take(i + 1) == now.push(list[i as int]));
            assert(!now.contains(list[i as int])) by {
                if now.contains(list[i as int]) {
                    let k = choose|k: int| 0 <= k < now.len() && now[k] == list[i as int];
                    assert(list[k] == list[i as int]);
                }
            }
            assert forall|a: Seq<char>| #[trigger]
                list.take(i + 1).contains(a) <==> now.contains(a) || a == list[i as int] by {
                vstd::seq_lib::lemma_seq_contains_after_push(now, list[i as int], a);
            }
        }
    }
    assert(list.take(names.len() as int) == list);
    assert forall|a: Seq<char>| #[trigger] list.contains(a) <==> entry.authors@.contains(a) by {}
}

/// Credits the authors of the changes of a file.
fn add_line_author_contributions(map: &mut TextMap<usize>, entry: &GitCacheEntry)
    ensures
        forall|a: Seq<char>| #[trigger]
            final(map)@.contains_key(a) <==> old(map)@.contains_key(a) || changes_by(
                entry.line_changes@,
                a,
            ) > 0,
        forall|a: Seq<char>| #[trigger]
            held_of(final(map)@, a) == held(
                held_of(old(map)@, a) + changes_by(entry.line_changes@, a),
            ),
{
    let ghost before = map@;
    let ghost all = entry.line_changes@;
    for i in 0..entry.line_changes.len()
        invariant
            all == entry.line_changes@,
            forall|a: Seq<char>| #[trigger]
                map@.contains_key(a) <==> before.contains_key(a) || changes_by(
                    all.take(i as int),
                    a,
                ) > 0,
            forall|a: Seq<char>| #[trigger]
                held_of(map@, a) == held(held_of(before, a) + changes_by(all.take(i as int), a)),
    {
        add_credit(map, &entry.line_changes[i].author, 1);
        proof {
            assert(all.take(i + 1).drop_last() == all.take(i as int));
            assert(all.take(i + 1).last() == all[i as int]);
        }
    }
    assert(all.take(entry.line_changes.len() as int) == all);
}

/// How much each author is credited with.
pub fn author_contributions(git_cache: &TextMap<GitCacheEntry>) -> (map: TextMap<usize>)
    ensures
        forall|a: Seq<char>| #[trigger]
            map@.contains_key(a) <==> is_contributor(git_cache.values(), a),
        forall|a: Seq<char>| #[trigger]
            held_of(map@, a) == held(contribution(git_cache.values(), a)),
{
    let mut map: TextMap<usize> = TextMap::new();
    let ghost all = git_cache.values();
    let n: usize = git_cache.len();
    for i in 0..n
        invariant
            n == all.len(),
            all == git_cache.values(),
            forall|a: Seq<char>| #[trigger]
                map@.contains_key(a) <==> is_contributor(all.take(i as int), a),
            forall|a: Seq<char>| #[trigger]
                held_of(map@, a) == held(contribution(all.take(i as int), a)),
    {
        let entry = git_cache.value(i);
        if entry.line_changes.len() == 0 {
            add_file_author_contributions(&mut map, entry);
        } else {
            add_line_author_contributions(&mut map, entry);
        }
        proof {
            assert(all.take(i + 1).drop_last() == all.take(i as int));
            assert(all.take(i + 1).last() == all[i as int]);
        }
    }
    assert(all.take(all.len() as int) == all);
    map
}

/// The authors of any of the files.
pub open spec fn authors_of(files: Seq<GitCacheEntry>) -> Set<Seq<char>>
    decreases files.len(),
{
    if files.len() == 0 {
        Set::empty()
    } else {
        authors_of(files.drop_last()).union(files.last().authors@)
    }
}

/// How many people have changed any of the files.
pub fn count_authors(git_cache: &TextMap<GitCacheEntry>) -> (n: usize)
    ensures
        n == authors_of(git_cache.values()).len(),
        authors_of(git_cache.values()).finite(),
{
    let mut authors = TextSet::new();
    let ghost all = git_cache.values();
    let n: usize = git_cache.len();
    for i in 0..n
        invariant
            n == all.len(),
            all == git_cache.values(),
            authors@ == authors_of(all.take(i as int)),
    {
        authors.absorb(&git_cache.value(i).authors);
        proof {
            assert(all.take(i + 1).drop_last() == all.take(i as int));
            assert(all.take(i + 1).last() == all[i as int]);
        }
    }
    assert(all.take(all.len() as int) == all);
    authors.len()
}

/// Counts from the largest down.
pub struct LargestFirst;

impl Ranking<usize> for LargestFirst {
    open spec fn at_most(&self, a: usize, b: usize) -> bool {
        a >= b
    }

    proof fn lemma_total(&self, a: usize, b: usize) {
    }

    proof fn lemma_transitive(&self, a: usize, b: usize, c: usize) {
    }

    fn in_order(&self, a: &usize, b: &usize) -> (r: bool) {
        *a >= *b
    }
}

/// The sum of counts.
pub open spec fn sum_of(counts: Seq<usize>) -> nat
    decreases counts.len(),
{
    if counts.len() == 0 {
        0
    } else {
        sum_of(counts.drop_last()) + counts.last() as nat
    }
}

/// Whether `k` is the number of largest counts, and no fewer, that make up half of
/// the whole.
pub open spec fn makes_up_half(sorted: Seq<usize>, k: nat) -> bool {
    if sum_of(sorted) == 0 {
        k == 0
    } else {
        &&& 0 < k <= sorted.len()
        &&& 2 * sum_of(sorted.take(k as int)) >= sum_of(sorted)
        &&& 2 * sum_of(sorted.take(k - 1)) < sum_of(sorted)
    }
}

/// Whether `k` is the bus factor of contributions: how many of those who
/// contributed most have together contributed half of the whole.
pub open spec fn is_bus_factor(k: nat, counts: Seq<usize>) -> bool {
    exists|sorted: Seq<usize>| #[trigger]
        is_stable_sort(&LargestFirst, counts, sorted) && makes_up_half(sorted, k)
}

/// How few people half of all contributions come from.
pub fn bus_factor(author_contributions: &TextMap<usize>) -> (k: usize)
    ensures
        is_bus_factor(k as nat, author_contributions.values()),
{
    let mut counts: Vec<usize> = Vec::new();
    let ghost all = author_contributions.values();
    let n: usize = author_contributions.len();
    for i in 0..n
        invariant
            n == all.len(),
            all == author_contributions.values(),
            counts@ == all.take(i as int),
    {
        counts.push(*author_contributions.value(i));
        assert(all.take(i + 1) == all.take(i as int).push(all[i as int]));
    }
    assert(all.take(all.len() as int) == all);
    let sorted = stable_sort(&LargestFirst, counts);
    let ghost list = sorted@;
    assert(is_stable_sort(&LargestFirst, all, list));

    let mut total: u128 = 0;
    for i in 0..sorted.len()
        invariant
            list == sorted@,
            total == sum_of(list.take(i as int)),
            total <= i * 0xffff_ffff_ffff_ffff,
    {
        assert(list.take(i + 1).drop_last() == list.take(i as int));
        total = total + sorted[i] as u128;
    }
    assert(list.take(sorted.len() as int) == list);
    if total == 0 {
        return 0;
    }
    let mut accumulated: u128 = 0;
    let mut people: usize = 0;
    while people < sorted.len() && accumulated < total - accumulated
        invariant
            list == sorted@,
            people <= sorted.len(),
            accumulated == sum_of(list.take(people as int)),
            accumulated <= total == sum_of(list),
            people > 0 ==> 2 * sum_of(list.take(people - 1)) < total,
        decreases sorted.len() - people,
    {
        proof {
            assert(list.take(people + 1).drop_last() == list.take(people as int));
            lemma_part_at_most_whole(list, people + 1);
        }
        accumulated = accumulated + sorted[people] as u128;
        people = people + 1;
    }
    proof {
        if people == sorted.len() {
            assert(list.take(people as int) == list);
        }
    }
    people
}

/// The sum of the first counts is at most the whole sum.
proof fn lemma_part_at_most_whole(counts: Seq<usize>, n: int)
    requires
        0 <= n <= counts.len(),
    ensures
        sum_of(counts.take(n)) <= sum_of(counts),
    decreases counts.len() - n,
{
    if n < counts.len() {
        assert(counts.take(n + 1).drop_last() == counts.take(n));
        lemma_part_at_most_whole(counts, n + 1);
    } else {
        assert(counts.take(n) == counts);
    }
}

/// The counts at some places.
pub open spec fn counts_at(counts: Seq<usize>, places: Seq<int>) -> Seq<usize> {
    places.map_values(|p: int| counts[p])
}

/// Counts at some places sum up to no more than as many of the largest counts.
proof fn lemma_largest_sum(sorted: Seq<usize>, places: Seq<int>)
    requires
        forall|i: int, j: int|
            #![trigger sorted[i], sorted[j]]
            0 <= i < j < sorted.len() ==> sorted[i] >= sorted[j],
        forall|i: int| 0 <= i < places.len() ==> i <= #[trigger] places[i] < sorted.len(),
    ensures
        sum_of(counts_at(sorted, places)) <= sum_of(sorted.take(places.len() as int)),
    decreases places.len(),
{
    if places.len() > 0 {
        let n = places.len() - 1;
        let fewer = places.drop_last();
        lemma_largest_sum(sorted, fewer);
        assert(counts_at(sorted, places).drop_last() == counts_at(sorted, fewer));
        assert(n <= places[n] < sorted.len());
        assert(sorted.take(n + 1).drop_last() == sorted.take(n));
        assert(sorted.take(n + 1).last() == sorted[n]);
        if n < places[n] {
            assert(sorted[n] >= sorted[places[n]]);
        }
    }
}

/// Fewer people than the bus factor, whoever they are, have not contributed half of
/// the whole. `places` are the places of these people among all, by what they
/// contributed.
pub proof fn lemma_bus_factor_is_least(
    k: nat,
    counts: Seq<usize>,
    sorted: Seq<usize>,
    places: Seq<int>,
)
    requires
        is_stable_sort(&LargestFirst, counts, sorted),
        makes_up_half(sorted, k),
        places.len() < k,
        forall|i: int| 0 <= i < places.len() ==> 0 <= #[trigger] places[i] < sorted.len(),
        forall|i: int, j: int|
            #![trigger places[i], places[j]]
            0 <= i < j < places.len() ==> places[i] < places[j],
    ensures
        2 * sum_of(counts_at(sorted, places)) < sum_of(sorted),
{
    assert forall|i: int, j: int|
        #![trigger sorted[i], sorted[j]]
        0 <= i < j < sorted.len() implies sorted[i] >= sorted[j] by {
        assert(LargestFirst.at_most(sorted[i], sorted[j]));
    }
    assert forall|i: int| 0 <= i < places.len() implies i <= #[trigger] places[i] < sorted.len() by {
        lemma_places_move_out(places, i);
    }
    lemma_largest_sum(sorted, places);
    let n = places.len() as int;
    let most = sorted.take(k - 1);
    lemma_part_at_most_whole(most, n);
    assert(most.take(n) == sorted.take(n));
}

/// Of ascending places the one at position `i` is `i` or beyond.
proof fn lemma_places_move_out(places: Seq<int>, i: int)
    requires
        0 <= i < places.len(),
        places[0] >= 0,
        forall|i: int, j: int|
            #![trigger places[i], places[j]]
            0 <= i < j < places.len() ==> places[i] < places[j],
    ensures
        i <= places[i],
    decreases i,
{
    if i > 0 {
        lemma_places_move_out(places, i - 1);
        assert(places[i - 1] < places[i]);
    }
}

} // verus!
