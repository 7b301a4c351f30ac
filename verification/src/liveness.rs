//! Who calls whom, what nothing reaches, and what a project amounts to: told by counting.

use crate::coupling::{callees_of, callers_of, calls, is_called, is_coupled, is_test_path};
use crate::metrics::{DeadCodeStats, FunctionMetrics, ProjectStats};
use crate::order::{text_le, text_lt};
use crate::report::are_coupled;
use crate::stats::{
    count_of_kind, dead_function, is_dead_code, is_project, never_reached, total_complexity,
    total_lines,
};
use crate::text::views;
use vstd::prelude::*;

verus! {

/// Whether two strings part at a place: they are the same before it, and there the first
/// ends or has the smaller character.
pub open spec fn part_at(a: Seq<char>, b: Seq<char>, p: int) -> bool {
    &&& 0 <= p <= a.len()
    &&& p < b.len()
    &&& forall|k: int| 0 <= k < p ==> #[trigger] a[k] == b[k]
    &&& p == a.len() || a[p] < b[p]
}

/// Whether one string comes before another.
pub open spec fn comes_first(a: Seq<char>, b: Seq<char>) -> bool {
    exists|p: int| #[trigger] part_at(a, b, p)
}

/// The order of strings is that of their first difference.
pub proof fn lemma_first_difference(a: Seq<char>, b: Seq<char>)
    ensures
        text_lt(a, b) <==> comes_first(a, b),
        text_le(a, b) <==> a == b || comes_first(a, b),
    decreases a.len(),
{
    if a.len() == 0 {
        if b.len() > 0 {
            assert(part_at(a, b, 0));
        } else {
            assert(a =~= b);
        }
    } else if b.len() == 0 {
    } else if a[0] != b[0] {
        if a[0] < b[0] {
            assert(part_at(a, b, 0));
        } else if comes_first(a, b) {
            let p = choose|p: int| #[trigger] part_at(a, b, p);
            assert(p > 0);
            assert(a[0] == b[0]);
        }
    } else {
        let x = a.drop_first();
        let y = b.drop_first();
        lemma_first_difference(x, y);
        if x == y {
            assert(a =~= b) by {
                assert forall|k: int| 0 <= k < a.len() implies a[k] == b[k] by {
                    if k > 0 {
                        assert(a[k] == x[k - 1]);
                        assert(b[k] == y[k - 1]);
                    }
                }
            }
        }
        if comes_first(x, y) {
            let p = choose|p: int| #[trigger] part_at(x, y, p);
            assert forall|k: int| 0 <= k < p + 1 implies #[trigger] a[k] == b[k] by {
                if k > 0 {
                    assert(x[k - 1] == y[k - 1]);
                }
            }
            assert(part_at(a, b, p + 1));
            if p < x.len() {
                assert(x[p] < y[p]);
            }
            assert(x != y);
        }
        if comes_first(a, b) {
            let p = choose|p: int| #[trigger] part_at(a, b, p);
            assert(p > 0);
            assert forall|k: int| 0 <= k < p - 1 implies #[trigger] x[k] == y[k] by {
                assert(a[k + 1] == b[k + 1]);
            }
            assert(part_at(x, y, p - 1));
        }
    }
}

/// Whether a list holds a string.
pub open spec fn is_listed(list: Seq<String>, x: Seq<char>) -> bool {
    exists|k: int| 0 <= k < list.len() && (#[trigger] list[k])@ == x
}

/// Whether what a function says holds the name of another.
pub open spec fn mentions(f: FunctionMetrics, g: FunctionMetrics) -> bool {
    is_listed(f.coupling.callees@, g.name@)
}

/// Whether a string is a file and a name with a colon between them.
pub open spec fn refers_to(x: Seq<char>, f: FunctionMetrics) -> bool {
    x == f.file@ + ":"@ + f.name@
}

/// Whether a string refers to another function that mentions the one at a place.
pub open spec fn refers_to_caller(functions: Seq<FunctionMetrics>, j: int, i: int, x: Seq<char>) -> bool {
    &&& 0 <= i < functions.len()
    &&& i != j
    &&& mentions(functions[i], functions[j])
    &&& refers_to(x, functions[i])
}

/// Whether a string refers to another function that the one at a place mentions.
pub open spec fn refers_to_callee(functions: Seq<FunctionMetrics>, i: int, j: int, x: Seq<char>) -> bool {
    &&& 0 <= j < functions.len()
    &&& i != j
    &&& mentions(functions[i], functions[j])
    &&& refers_to(x, functions[j])
}

proof fn lemma_listed(list: Seq<String>, x: Seq<char>)
    ensures
        views(list).contains(x) <==> is_listed(list, x),
{
    if views(list).contains(x) {
        let k = choose|k: int| 0 <= k < views(list).len() && views(list)[k] == x;
        assert(list[k]@ == x);
    }
    if is_listed(list, x) {
        let k = choose|k: int| 0 <= k < list.len() && (#[trigger] list[k])@ == x;
        assert(views(list)[k] == x);
    }
}

proof fn lemma_mentions(functions: Seq<FunctionMetrics>, i: int, j: int)
    requires
        0 <= i < functions.len(),
        0 <= j < functions.len(),
        i != j,
    ensures
        calls(functions, i, j) <==> mentions(functions[i], functions[j]),
{
    lemma_listed(functions[i].coupling.callees@, functions[j].name@);
}

/// A function is told with exactly those other functions that mention its name, each
/// once and in order, and with as many callers as there are; likewise with those that
/// it mentions. It is the less stable the more of the two are its callees.
pub proof fn lemma_callers_and_callees_are_told(
    after: Seq<FunctionMetrics>,
    before: Seq<FunctionMetrics>,
    j: int,
)
    requires
        are_coupled(after, before),
        0 <= j < before.len(),
    ensures
        ({
            let c = after[j].coupling;
            &&& forall|x: Seq<char>|
                is_listed(c.callers@, x) <==> exists|i: int| #[trigger]
                    refers_to_caller(before, j, i, x)
            &&& forall|x: Seq<char>|
                is_listed(c.callees@, x) <==> exists|i: int| #[trigger]
                    refers_to_callee(before, j, i, x)
            &&& forall|k: int, l: int|
                #![trigger c.callers@[k], c.callers@[l]]
                0 <= k < l < c.callers@.len() ==> comes_first(c.callers@[k]@, c.callers@[l]@)
            &&& forall|k: int, l: int|
                #![trigger c.callees@[k], c.callees@[l]]
                0 <= k < l < c.callees@.len() ==> comes_first(c.callees@[k]@, c.callees@[l]@)
            &&& c.fan_in == c.callers@.len()
            &&& c.fan_out == c.callees@.len()
            &&& c.instability.numerator == c.fan_out
            &&& c.instability.denominator == c.fan_in + c.fan_out
        }),
{
    assert(is_coupled(after[j], before, j));
    let c = after[j].coupling;
    assert forall|x: Seq<char>|
        is_listed(c.callers@, x) <==> exists|i: int| #[trigger]
            refers_to_caller(before, j, i, x) by {
        lemma_listed(c.callers@, x);
        if callers_of(before, j).contains(x) {
            let i = choose|i: int| #[trigger]
                calls(before, i, j) && x == crate::coupling::ref_of(before[i]);
            lemma_mentions(before, i, j);
            assert(refers_to_caller(before, j, i, x));
        }
        if exists|i: int| #[trigger] refers_to_caller(before, j, i, x) {
            let i = choose|i: int| #[trigger] refers_to_caller(before, j, i, x);
            lemma_mentions(before, i, j);
            assert(calls(before, i, j));
        }
    }
    assert forall|x: Seq<char>|
        is_listed(c.callees@, x) <==> exists|i: int| #[trigger]
            refers_to_callee(before, j, i, x) by {
        lemma_listed(c.callees@, x);
        if callees_of(before, j).contains(x) {
            let i = choose|i: int| #[trigger]
                calls(before, j, i) && x == crate::coupling::ref_of(before[i]);
            lemma_mentions(before, j, i);
            assert(refers_to_callee(before, j, i, x));
        }
        if exists|i: int| #[trigger] refers_to_callee(before, j, i, x) {
            let i = choose|i: int| #[trigger] refers_to_callee(before, j, i, x);
            lemma_mentions(before, j, i);
            assert(calls(before, j, i));
        }
    }
    assert forall|k: int, l: int|
        #![trigger c.callers@[k], c.callers@[l]]
        0 <= k < l < c.callers@.len() implies comes_first(c.callers@[k]@, c.callers@[l]@) by {
        assert(text_lt(views(c.callers@)[k], views(c.callers@)[l]));
        lemma_first_difference(c.callers@[k]@, c.callers@[l]@);
    }
    assert forall|k: int, l: int|
        #![trigger c.callees@[k], c.callees@[l]]
        0 <= k < l < c.callees@.len() implies comes_first(c.callees@[k]@, c.callees@[l]@) by {
        assert(text_lt(views(c.callees@)[k], views(c.callees@)[l]));
        lemma_first_difference(c.callees@[k]@, c.callees@[l]@);
    }
}

/// Whether a string ends with another.
pub open spec fn has_ending(s: Seq<char>, ending: Seq<char>) -> bool {
    s.len() >= ending.len() && forall|k: int|
        0 <= k < ending.len() ==> #[trigger] ending[k] == s[s.len() - ending.len() + k]
}

/// Whether a string holds another from a place on.
pub open spec fn stands_at(s: Seq<char>, part: Seq<char>, at: int) -> bool {
    0 <= at && at + part.len() <= s.len() && s.subrange(at, at + part.len()) == part
}

/// Whether a file is one of tests: it lies below a directory of tests or its name ends
/// as that of a test does.
pub open spec fn lies_in_tests(file: Seq<char>) -> bool {
    ||| exists|at: int| #[trigger] stands_at(file, "/tests/"@, at)
    ||| has_ending(file, "_test.rs"@)
    ||| has_ending(file, ".test.ts"@)
    ||| has_ending(file, ".spec.ts"@)
}

proof fn lemma_ending(s: Seq<char>, ending: Seq<char>)
    ensures
        crate::text::finishes_with(s, ending) <==> has_ending(s, ending),
{
    if has_ending(s, ending) {
        assert(s.subrange(s.len() - ending.len(), s.len() as int) =~= ending);
    }
    if crate::text::finishes_with(s, ending) {
        assert forall|k: int| 0 <= k < ending.len() implies #[trigger] ending[k] == s[s.len()
            - ending.len() + k] by {
            assert(s.subrange(s.len() - ending.len(), s.len() as int)[k] == ending[k]);
        }
    }
}

proof fn lemma_in_tests(file: Seq<char>)
    ensures
        is_test_path(file) <==> lies_in_tests(file),
{
    lemma_ending(file, "_test.rs"@);
    lemma_ending(file, ".test.ts"@);
    lemma_ending(file, ".spec.ts"@);
    let part = "/tests/"@;
    if crate::text::has_part(file, part) {
        let at = choose|at: int| #[trigger] crate::text::occurs_at(file, part, at);
        assert(stands_at(file, part, at));
    }
    if exists|at: int| #[trigger] stands_at(file, part, at) {
        let at = choose|at: int| #[trigger] stands_at(file, part, at);
        assert(crate::text::occurs_at(file, part, at));
    }
}

/// Whether a function is told as it first is: as a test, as exported or as private, and
/// not yet as reached.
pub open spec fn is_as_found(f: FunctionMetrics) -> bool {
    !f.reachability.is_reachable && (f.reachability.kind@ == "test_entry"@
        || f.reachability.kind@ == "unreachable_export"@ || f.reachability.kind@
        == "unreachable_private"@)
}

/// Whether another function mentions the one at a place.
pub open spec fn is_mentioned(functions: Seq<FunctionMetrics>, j: int) -> bool {
    exists|i: int|
        0 <= i < functions.len() && i != j && #[trigger] mentions(functions[i], functions[j])
}

/// Whether something reaches the function at a place: another function that mentions
/// it, a user of the program or of the library, or a run of the tests.
pub open spec fn is_alive(functions: Seq<FunctionMetrics>, j: int) -> bool {
    let f = functions[j];
    ||| is_mentioned(functions, j)
    ||| f.name@ == "main"@
    ||| f.reachability.kind@ == "unreachable_export"@
    ||| f.reachability.kind@ == "test_entry"@
    ||| lies_in_tests(f.file@)
}

/// A function is told as reached exactly if something reaches it: as one of tests only,
/// as exported, or else as reachable. One that nothing reaches is told as private.
/// Everything else but the coupling stays as it was.
pub proof fn lemma_reached_is_told(
    after: Seq<FunctionMetrics>,
    before: Seq<FunctionMetrics>,
    j: int,
)
    requires
        are_coupled(after, before),
        0 <= j < before.len(),
        is_as_found(before[j]),
    ensures
        ({
            let f = before[j];
            let r = after[j].reachability;
            let test = f.reachability.kind@ == "test_entry"@ || lies_in_tests(f.file@);
            let exported = f.reachability.kind@ == "unreachable_export"@;
            &&& r.is_reachable <==> is_alive(before, j)
            &&& test ==> r.kind@ == "test_only"@
            &&& !test && exported ==> r.kind@ == "exported"@
            &&& !test && !exported && r.is_reachable ==> r.kind@ == "reachable"@
            &&& !r.is_reachable ==> r.kind@ == "unreachable_private"@
            &&& after[j] == (FunctionMetrics {
                coupling: after[j].coupling,
                reachability: after[j].reachability,
                ..before[j]
            })
        }),
{
    assert(is_coupled(after[j], before, j));
    lemma_in_tests(before[j].file@);
    if is_called(before, j) {
        let i = choose|i: int| #[trigger] calls(before, i, j);
        lemma_mentions(before, i, j);
        assert(mentions(before[i], before[j]));
    }
    if is_mentioned(before, j) {
        let i = choose|i: int|
            0 <= i < before.len() && i != j && #[trigger] mentions(before[i], before[j]);
        lemma_mentions(before, i, j);
        assert(calls(before, i, j));
    }
    reveal_strlit("test_entry");
    reveal_strlit("unreachable_export");
    reveal_strlit("unreachable_private");
    assert("test_entry"@.len() == 10);
    assert("unreachable_export"@.len() == 18);
    assert("unreachable_private"@.len() == 19);
}

/// The places of the functions that nothing reaches.
pub open spec fn dead_places(functions: Seq<FunctionMetrics>) -> Set<int> {
    Set::new(|i: int| 0 <= i < functions.len() && !functions[i].reachability.is_reachable)
}

/// Those of them that are unreachable in a way.
pub open spec fn dead_places_of(functions: Seq<FunctionMetrics>, kind: Seq<char>) -> Set<int> {
    Set::new(
        |i: int|
            0 <= i < functions.len() && !functions[i].reachability.is_reachable
                && functions[i].reachability.kind@ == kind,
    )
}

/// As many pairs for each place as a number says.
pub open spec fn units(numbers: Seq<nat>) -> Set<(int, int)> {
    Set::new(|u: (int, int)| 0 <= u.0 < numbers.len() && 0 <= u.1 < numbers[u.0])
}

/// A sum grows by the number that is added.
pub proof fn lemma_units(numbers: Seq<nat>, x: nat)
    requires
        units(numbers).finite(),
    ensures
        units(numbers.push(x)).finite(),
        units(numbers.push(x)).len() == units(numbers).len() + x,
{
    let n = numbers.len() as int;
    let range = vstd::set_lib::set_int_range(0, x as int);
    vstd::set_lib::lemma_int_range(0, x as int);
    let put = |k: int| (n, k);
    let new = range.map(put);
    vstd::set_lib::lemma_map_size(range, new, put);
    assert(units(numbers.push(x)) =~= units(numbers) + new) by {
        let more = numbers.push(x);
        assert forall|u: (int, int)| units(more).contains(u) <==> (units(numbers)
            + new).contains(u) by {
            if units(more).contains(u) && u.0 == n {
                assert(range.contains(u.1));
                assert(put(u.1) == u);
            }
        }
    }
    assert(units(numbers).disjoint(new));
    vstd::set_lib::lemma_set_disjoint_lens(units(numbers), new);
}

/// Nothing adds up to nothing.
pub proof fn lemma_no_units()
    ensures
        units(Seq::empty()).finite(),
        units(Seq::empty()).len() == 0,
{
    assert(units(Seq::<nat>::empty()) =~= Set::<(int, int)>::empty());
}

/// The lines of the functions that nothing reaches.
pub open spec fn dead_lines(functions: Seq<FunctionMetrics>) -> Seq<nat> {
    Seq::new(
        functions.len(),
        |i: int|
            if functions[i].reachability.is_reachable {
                0nat
            } else {
                functions[i].lines_of_code as nat
            },
    )
}

/// Where the functions that nothing reaches were found.
proof fn lemma_dead(functions: Seq<FunctionMetrics>) -> (places: Seq<int>)
    ensures
        places.len() == never_reached(functions).len(),
        forall|k: int|
            #![trigger places[k]]
            0 <= k < places.len() ==> 0 <= places[k] < functions.len()
                && !functions[places[k]].reachability.is_reachable && never_reached(functions)[k]
                == functions[places[k]],
        forall|k: int, l: int|
            #![trigger places[k], places[l]]
            0 <= k < l < places.len() ==> places[k] < places[l],
        forall|i: int| #[trigger] dead_places(functions).contains(i) ==> places.contains(i),
        dead_places(functions).finite(),
        dead_places(functions).len() == places.len(),
        units(dead_lines(functions)).finite(),
        units(dead_lines(functions)).len() == total_lines(never_reached(functions)),
    decreases functions.len(),
{
    if functions.len() == 0 {
        assert(dead_places(functions) =~= Set::<int>::empty());
        assert(dead_lines(functions) =~= Seq::<nat>::empty());
        lemma_no_units();
        Seq::empty()
    } else {
        let before = functions.drop_last();
        let n = functions.len() - 1;
        let f = functions.last();
        let had = lemma_dead(before);
        assert forall|i: int| 0 <= i < n implies functions[i] == before[i] by {}
        lemma_units(
            dead_lines(before),
            if f.reachability.is_reachable {
                0
            } else {
                f.lines_of_code as nat
            },
        );
        assert(dead_lines(functions) =~= dead_lines(before).push(
            if f.reachability.is_reachable {
                0
            } else {
                f.lines_of_code as nat
            },
        ));
        if f.reachability.is_reachable {
            assert(dead_places(functions) =~= dead_places(before));
            had
        } else {
            assert(dead_places(functions) =~= dead_places(before).insert(n));
            let places = had.push(n);
            assert(never_reached(functions).drop_last() =~= never_reached(before));
            assert(never_reached(functions).last() == f);
            assert forall|i: int| #[trigger] dead_places(functions).contains(i) implies
                places.contains(i) by {
                if i == n {
                    assert(places[n_of(had)] == n);
                } else {
                    assert(dead_places(before).contains(i));
                    assert(had.contains(i));
                    let k = choose|k: int| 0 <= k < had.len() && had[k] == i;
                    assert(places[k] == i);
                }
            }
            places
        }
    }
}

spec fn n_of(s: Seq<int>) -> int {
    s.len() as int
}

proof fn lemma_dead_of(functions: Seq<FunctionMetrics>, kind: Seq<char>)
    ensures
        dead_places_of(functions, kind).finite(),
        dead_places_of(functions, kind).len() == count_of_kind(never_reached(functions), kind),
    decreases functions.len(),
{
    if functions.len() == 0 {
        assert(dead_places_of(functions, kind) =~= Set::<int>::empty());
    } else {
        let before = functions.drop_last();
        let n = functions.len() - 1;
        let f = functions.last();
        lemma_dead_of(before, kind);
        assert forall|i: int| 0 <= i < n implies functions[i] == before[i] by {}
        if !f.reachability.is_reachable {
            assert(never_reached(functions).drop_last() =~= never_reached(before));
            assert(never_reached(functions).last() == f);
        }
        if !f.reachability.is_reachable && f.reachability.kind@ == kind {
            assert(dead_places_of(functions, kind) =~= dead_places_of(before, kind).insert(n));
        } else {
            assert(dead_places_of(functions, kind) =~= dead_places_of(before, kind));
        }
    }
}

/// What is told of dead code lists every function that nothing reaches, once and in the
/// order they stand in, and no other, and counts them and their lines. Just the private
/// ones are called safe to delete.
pub proof fn lemma_dead_code_is_told(stats: DeadCodeStats, functions: Seq<FunctionMetrics>) -> (places:
    Seq<int>)
    requires
        is_dead_code(stats, functions),
    ensures
        places.len() == stats.functions@.len(),
        forall|k: int, l: int|
            #![trigger places[k], places[l]]
            0 <= k < l < places.len() ==> places[k] < places[l],
        forall|i: int|
            0 <= i < functions.len() ==> (#[trigger] places.contains(i)
                <==> !functions[i].reachability.is_reachable),
        forall|k: int|
            #![trigger places[k]]
            #![trigger stats.functions@[k]]
            0 <= k < places.len() ==> {
                let f = functions[places[k]];
                let d = stats.functions@[k];
                &&& 0 <= places[k] < functions.len()
                &&& d.id == f.id
                &&& d.name == f.name
                &&& d.file == f.file
                &&& d.line == f.line
                &&& d.lines_of_code == f.lines_of_code
                &&& d.kind == f.reachability.kind
                &&& d.safe_to_delete <==> f.reachability.kind@ == "unreachable_private"@
            },
        stats.unreachable_functions == dead_places(functions).len(),
        stats.unreachable_private == dead_places_of(functions, "unreachable_private"@).len(),
        stats.unreachable_export == dead_places_of(functions, "unreachable_export"@).len(),
        stats.safe_to_delete == dead_places_of(functions, "unreachable_private"@).len(),
        stats.unreachable_loc == units(dead_lines(functions)).len(),
{
    let places = lemma_dead(functions);
    lemma_dead_of(functions, "unreachable_private"@);
    lemma_dead_of(functions, "unreachable_export"@);
    assert forall|i: int| 0 <= i < functions.len() implies (#[trigger] places.contains(i)
        <==> !functions[i].reachability.is_reachable) by {
        if places.contains(i) {
            let k = choose|k: int| 0 <= k < places.len() && places[k] == i;
            assert(!functions[places[k]].reachability.is_reachable);
        } else {
            assert(!dead_places(functions).contains(i));
        }
    }
    assert forall|k: int| 0 <= k < places.len() implies stats.functions@[k] == dead_function(
        functions[#[trigger] places[k]],
    ) by {
        assert(never_reached(functions)[k] == functions[places[k]]);
    }
    places
}

/// From the functions as they were found to what is told of dead code: a function is
/// listed exactly if nothing reaches it, and all that are listed may be deleted. So no
/// function that is exported, mentioned elsewhere, a test or `main` is ever listed.
pub proof fn lemma_only_what_nothing_reaches_is_dead(
    stats: DeadCodeStats,
    after: Seq<FunctionMetrics>,
    before: Seq<FunctionMetrics>,
) -> (places: Seq<int>)
    requires
        are_coupled(after, before),
        is_dead_code(stats, after),
        forall|i: int| 0 <= i < before.len() ==> is_as_found(#[trigger] before[i]),
    ensures
        places.len() == stats.functions@.len(),
        forall|i: int|
            0 <= i < before.len() ==> (#[trigger] places.contains(i) <==> !is_alive(before, i)),
        forall|k: int|
            #![trigger places[k]]
            0 <= k < places.len() ==> 0 <= places[k] < before.len()
                && stats.functions@[k].name == before[places[k]].name && stats.functions@[k].file
                == before[places[k]].file && stats.functions@[k].line == before[places[k]].line
                && stats.functions@[k].safe_to_delete,
        stats.unreachable_export == 0,
        stats.safe_to_delete == stats.unreachable_functions,
{
    let places = lemma_dead_code_is_told(stats, after);
    let _ = lemma_dead(after);
    assert forall|i: int| 0 <= i < before.len() implies after[i].name == before[i].name
        && after[i].file == before[i].file && after[i].line == before[i].line
        && #[trigger] after[i].reachability.is_reachable == is_alive(before, i) && (
    !after[i].reachability.is_reachable ==> after[i].reachability.kind@
        == "unreachable_private"@) by {
        assert(is_as_found(before[i]));
        lemma_reached_is_told(after, before, i);
    }
    reveal_strlit("unreachable_export");
    reveal_strlit("unreachable_private");
    assert("unreachable_export"@.len() != "unreachable_private"@.len());
    assert(dead_places_of(after, "unreachable_export"@) =~= Set::<int>::empty());
    assert(dead_places_of(after, "unreachable_private"@) =~= dead_places(after));
    assert forall|k: int| 0 <= k < places.len() implies 0 <= places[k] < before.len()
        && stats.functions@[k].name == before[places[k]].name && stats.functions@[k].file
        == before[places[k]].file && stats.functions@[k].line == before[places[k]].line
        && stats.functions@[k].safe_to_delete by {
        let i = places[k];
        assert(places.contains(i));
        assert(!after[i].reachability.is_reachable);
    }
    places
}

/// The complexity of a project is that of all its functions by both measures, set
/// against all their lines.
pub proof fn lemma_debt_is_added_up(
    stats: ProjectStats,
    functions: Seq<FunctionMetrics>,
    files: Seq<crate::cache::GitCacheEntry>,
    authors: nat,
)
    requires
        is_project(stats, functions, files, authors),
    ensures
        stats.tech_debt_density.numerator == units(
            Seq::new(
                functions.len(),
                |i: int|
                    (functions[i].cognitive_complexity
                        + functions[i].cyclomatic_complexity) as nat,
            ),
        ).len(),
        stats.tech_debt_density.denominator == units(
            Seq::new(functions.len(), |i: int| functions[i].lines_of_code as nat),
        ).len(),
{
    lemma_debt(functions);
}

proof fn lemma_debt(functions: Seq<FunctionMetrics>)
    ensures
        units(complexities(functions)).finite(),
        units(complexities(functions)).len() == total_complexity(functions),
        units(lengths(functions)).finite(),
        units(lengths(functions)).len() == total_lines(functions),
    decreases functions.len(),
{
    if functions.len() == 0 {
        lemma_no_units();
        assert(complexities(functions) =~= Seq::<nat>::empty());
        assert(lengths(functions) =~= Seq::<nat>::empty());
    } else {
        let before = functions.drop_last();
        let f = functions.last();
        lemma_debt(before);
        let x = (f.cognitive_complexity + f.cyclomatic_complexity) as nat;
        lemma_units(complexities(before), x);
        lemma_units(lengths(before), f.lines_of_code as nat);
        assert(complexities(functions) =~= complexities(before).push(x));
        assert(lengths(functions) =~= lengths(before).push(f.lines_of_code as nat));
    }
}

spec fn complexities(functions: Seq<FunctionMetrics>) -> Seq<nat> {
    Seq::new(
        functions.len(),
        |i: int| (functions[i].cognitive_complexity + functions[i].cyclomatic_complexity) as nat,
    )
}

spec fn lengths(functions: Seq<FunctionMetrics>) -> Seq<nat> {
    Seq::new(functions.len(), |i: int| functions[i].lines_of_code as nat)
}

} // verus!
