//! Who calls whom, and what nobody reaches.

use crate::metrics::{CouplingMetrics, FunctionMetrics, ReachabilityMetrics};
use crate::score::Ratio;
use crate::table::{ascending, sort_and_dedup, TextMap};
use crate::text::{chars_of, contains, ends_with, finishes_with, has_part, joined3, views};
use vstd::prelude::*;

verus! {

/// How a function is referred to: by its file and its name.
pub open spec fn ref_of(function: FunctionMetrics) -> Seq<char> {
    function.file@ + ":"@ + function.name@
}

/// Refers to a function.
pub fn function_ref(function: &FunctionMetrics) -> (s: String)
    ensures
        s@ == ref_of(*function),
{
    joined3(function.file.as_str(), ":", function.name.as_str())
}

/// Whether one function mentions the name of another.
pub open spec fn calls(functions: Seq<FunctionMetrics>, i: int, j: int) -> bool {
    &&& 0 <= i < functions.len()
    &&& 0 <= j < functions.len()
    &&& i != j
    &&& views(functions[i].coupling.callees@).contains(functions[j].name@)
}

/// The functions that call function `j`.
pub open spec fn callers_of(functions: Seq<FunctionMetrics>, j: int) -> Set<Seq<char>> {
    Set::new(
        |x: Seq<char>| exists|i: int| #[trigger] calls(functions, i, j) && x == ref_of(functions[i]),
    )
}

/// The functions that function `i` calls.
pub open spec fn callees_of(functions: Seq<FunctionMetrics>, i: int) -> Set<Seq<char>> {
    Set::new(
        |x: Seq<char>| exists|j: int| #[trigger] calls(functions, i, j) && x == ref_of(functions[j]),
    )
}

/// Whether any other function calls function `j`.
pub open spec fn is_called(functions: Seq<FunctionMetrics>, j: int) -> bool {
    exists|i: int| #[trigger] calls(functions, i, j)
}

/// Calling and being called are two sides of the same: who calls another is among
/// its callers, and the other among those it calls.
pub proof fn lemma_callers_mirror_callees(functions: Seq<FunctionMetrics>, i: int, j: int)
    requires
        calls(functions, i, j),
    ensures
        callers_of(functions, j).contains(ref_of(functions[i])),
        callees_of(functions, i).contains(ref_of(functions[j])),
        is_called(functions, j),
{
}

/// Whether a list holds just the members of a set, each once and in order.
pub open spec fn lists(list: Seq<String>, set: Set<Seq<char>>) -> bool {
    &&& ascending(views(list))
    &&& forall|x: Seq<char>| #[trigger] views(list).contains(x) <==> set.contains(x)
}

/// Whether the coupling of a function tells of these callers and callees.
pub open spec fn is_coupling(
    m: CouplingMetrics,
    callers: Set<Seq<char>>,
    callees: Set<Seq<char>>,
) -> bool {
    &&& lists(m.callers@, callers)
    &&& lists(m.callees@, callees)
    &&& m.fan_in == m.callers@.len()
    &&& m.fan_out == m.callees@.len()
    &&& m.instability.numerator == m.fan_out
    &&& m.instability.denominator == m.fan_in + m.fan_out
}

/// Whether a path is that of a file with tests.
pub open spec fn is_test_path(file: Seq<char>) -> bool {
    has_part(file, "/tests/"@) || finishes_with(file, "_test.rs"@) || finishes_with(
        file,
        ".test.ts"@,
    ) || finishes_with(file, ".spec.ts"@)
}

/// Tells whether a function is in a file with tests.
pub fn is_test_file(function: &FunctionMetrics) -> (r: bool)
    ensures
        r == is_test_path(function.file@),
{
    let file = chars_of(function.file.as_str());
    contains(file.as_slice(), "/tests/") || ends_with(file.as_slice(), "_test.rs") || ends_with(
        file.as_slice(),
        ".test.ts",
    ) || ends_with(file.as_slice(), ".spec.ts")
}

/// Whether a function is a test.
pub open spec fn is_test(function: FunctionMetrics) -> bool {
    function.reachability.kind@ == "test_entry"@ || is_test_path(function.file@)
}

/// Whether a function is reached: by a call, from outside, by a test run, or as the
/// entry of a program.
pub open spec fn is_reached(function: FunctionMetrics, called: bool) -> bool {
    called || function.reachability.kind@ == "unreachable_export"@ || is_test(function)
        || function.name@ == "main"@
}

/// How a function is reached.
pub open spec fn reached_kind(function: FunctionMetrics) -> Seq<char> {
    if is_test(function) {
        "test_only"@
    } else if function.reachability.kind@ == "unreachable_export"@ {
        "exported"@
    } else {
        "reachable"@
    }
}

/// Whether a function is marked as reached if it is.
pub open spec fn is_marked(
    m: ReachabilityMetrics,
    function: FunctionMetrics,
    called: bool,
) -> bool {
    if is_reached(function, called) {
        m.is_reachable && m.kind@ == reached_kind(function)
    } else {
        m == function.reachability
    }
}

/// Marks a function as reached if it is.
pub fn mark_reachable_if_needed(function: &mut FunctionMetrics, called: bool)
    ensures
        *final(function) == (FunctionMetrics {
            reachability: final(function).reachability,
            ..*old(function)
        }),
        is_marked(final(function).reachability, *old(function), called),
{
    let exported = function.reachability.kind.as_str().eq("unreachable_export");
    let test = function.reachability.kind.as_str().eq("test_entry") || is_test_file(function);
    if called || exported || test || function.name.as_str().eq("main") {
        let kind = if test {
            "test_only".to_string()
        } else if exported {
            "exported".to_string()
        } else {
            "reachable".to_string()
        };
        function.reachability = ReachabilityMetrics { is_reachable: true, kind };
    }
}

/// Whether a map holds the places of the functions of each name.
pub open spec fn is_name_index(
    by_name: Map<Seq<char>, Vec<usize>>,
    functions: Seq<FunctionMetrics>,
    n: int,
) -> bool {
    &&& forall|name: Seq<char>, k: int|
        #![trigger by_name[name]@[k]]
        by_name.contains_key(name) && 0 <= k < by_name[name]@.len() ==> by_name[name]@[k] < n
            && functions[by_name[name]@[k] as int].name@ == name
    &&& forall|j: int|
        0 <= j < n ==> by_name.contains_key((#[trigger] functions[j]).name@)
            && by_name[functions[j].name@]@.contains(j as usize)
}

/// The places of the functions of each name.
fn function_indexes_by_name(functions: &Vec<FunctionMetrics>) -> (by_name: TextMap<Vec<usize>>)
    ensures
        is_name_index(by_name@, functions@, functions.len() as int),
{
    let mut by_name: TextMap<Vec<usize>> = TextMap::new();
    for j in 0..functions.len()
        invariant
            is_name_index(by_name@, functions@, j as int),
    {
        let ghost before = by_name@;
        let name = &functions[j].name;
        match by_name.position(name.as_str()) {
            Ok(i) => {
                let mut places = by_name.replace(i, Vec::new());
                let ghost old_places = places@;
                places.push(j);
                let ghost all = places@;
                let _placeholder = by_name.replace(i, places);
                proof {
                    assert(by_name@[name@]@ == all);
                    assert(all[all.len() - 1] == j);
                    assert(by_name@[name@]@.contains(j as usize));
                    assert forall|k: int| 0 <= k < j + 1 implies by_name@.contains_key(
                        (#[trigger] functions@[k]).name@,
                    ) && by_name@[functions@[k].name@]@.contains(k as usize) by {
                        if k < j {
                            let other = functions@[k].name@;
                            assert(before[other]@.contains(k as usize));
                            if other == name@ {
                                let a = choose|a: int|
                                    0 <= a < old_places.len() && old_places[a] == k as usize;
                                assert(all[a] == k as usize);
                            }
                        }
                    }
                    assert forall|nm: Seq<char>, k: int|
                        #![trigger by_name@[nm]@[k]]
                        by_name@.contains_key(nm) && 0 <= k < by_name@[nm]@.len() implies by_name@[nm]@[k]
                        < j + 1 && functions@[by_name@[nm]@[k] as int].name@ == nm by {
                        if nm == name@ {
                            if k < old_places.len() {
                                assert(before[nm]@[k] == all[k]);
                            }
                        } else {
                            assert(before[nm]@[k] == by_name@[nm]@[k]);
                        }
                    }
                }
            },
            Err(_) => {
                let mut places: Vec<usize> = Vec::new();
                places.push(j);
                let ghost all = places@;
                let _none = by_name.insert(name.clone(), places);
                proof {
                    assert(by_name@[name@]@ == all);
                    assert(all[0] == j);
                    assert(by_name@[name@]@.contains(j as usize));
                    assert forall|k: int| 0 <= k < j + 1 implies by_name@.contains_key(
                        (#[trigger] functions@[k]).name@,
                    ) && by_name@[functions@[k].name@]@.contains(k as usize) by {
                        if k < j {
                            let other = functions@[k].name@;
                            assert(before.contains_key(other));
                            assert(other != name@);
                        }
                    }
                    assert forall|nm: Seq<char>, k: int|
                        #![trigger by_name@[nm]@[k]]
                        by_name@.contains_key(nm) && 0 <= k < by_name@[nm]@.len() implies by_name@[nm]@[k]
                        < j + 1 && functions@[by_name@[nm]@[k] as int].name@ == nm by {
                        if nm != name@ {
                            assert(before[nm]@[k] == by_name@[nm]@[k]);
                        }
                    }
                }
            },
        }
    }
    by_name
}

/// The places of the functions that function `i` calls.
fn targets_of(
    functions: &Vec<FunctionMetrics>,
    by_name: &TextMap<Vec<usize>>,
    i: usize,
) -> (targets: Vec<usize>)
    requires
        i < functions.len(),
        is_name_index(by_name@, functions@, functions.len() as int),
    ensures
        forall|j: usize| #[trigger] targets@.contains(j) <==> calls(functions@, i as int, j as int),
{
    let ghost names = views(functions@[i as int].coupling.callees@);
    let n: usize = functions[i].coupling.callees.len();
    let mut targets: Vec<usize> = Vec::new();
    for c in 0..n
        invariant
            i < functions.len(),
            is_name_index(by_name@, functions@, functions.len() as int),
            names == views(functions@[i as int].coupling.callees@),
            n == names.len(),
            forall|j: usize| #[trigger]
                targets@.contains(j) <==> j < functions.len() && j != i && names.take(
                    c as int,
                ).contains(functions@[j as int].name@),
    {
        let name = &functions[i].coupling.callees[c];
        let ghost earlier = names.take(c as int);
        let ghost later = names.take(c + 1);
        assert(name@ == names[c as int]);
        assert(later == earlier.push(names[c as int]));
        let ghost found = targets@;
        if let Some(places) = by_name.get(name.as_str()) {
            for k in 0..places.len()
                invariant
                    i < functions.len(),
                    is_name_index(by_name@, functions@, functions.len() as int),
                    by_name@.contains_key(name@),
                    *places == by_name@[name@],
                    forall|j: usize| #[trigger]
                        targets@.contains(j) <==> found.contains(j) || (j != i && places@.take(
                            k as int,
                        ).contains(j)),
            {
                let ghost before = targets@;
                let place: usize = places[k];
                if place != i {
                    targets.push(place);
                }
                proof {
                    assert(places@.take(k + 1) == places@.take(k as int).push(place));
                    assert forall|j: usize| #[trigger] targets@.contains(j) <==> found.contains(j)
                        || (j != i && places@.take(k + 1).contains(j)) by {
                        vstd::seq_lib::lemma_seq_contains_after_push(before, place, j);
                        vstd::seq_lib::lemma_seq_contains_after_push(
                            places@.take(k as int),
                            place,
                            j,
                        );
                    }
                }
            }
            proof {
                assert(places@.take(places.len() as int) == places@);
                assert forall|j: usize| #[trigger]
                    targets@.contains(j) <==> j < functions.len() && j != i && later.contains(
                        functions@[j as int].name@,
                    ) by {
                    vstd::seq_lib::lemma_seq_contains_after_push(
                        earlier,
                        names[c as int],
                        functions@[j as int].name@,
                    );
                    if places@.contains(j) {
                        let k = choose|k: int| 0 <= k < places@.len() && places@[k] == j;
                        assert(by_name@[name@]@[k] == j);
                    }
                    if j < functions.len() && functions@[j as int].name@ == name@ {
                        assert(by_name@[functions@[j as int].name@]@.contains(j));
                    }
                }
            }
        } else {
            proof {
                assert forall|j: usize| #[trigger]
                    targets@.contains(j) <==> j < functions.len() && j != i && later.contains(
                        functions@[j as int].name@,
                    ) by {
                    vstd::seq_lib::lemma_seq_contains_after_push(
                        earlier,
                        names[c as int],
                        functions@[j as int].name@,
                    );
                    if j < functions.len() {
                        assert(by_name@.contains_key(functions@[j as int].name@));
                    }
                }
            }
        }
    }
    assert(names.take(n as int) == names);
    targets
}

/// Whether one of the first `n` functions calls function `j` and is referred to so.
spec fn called_by(
    functions: Seq<FunctionMetrics>,
    n: int,
    j: int,
    x: Seq<char>,
) -> bool {
    exists|i: int| i < n && #[trigger] calls(functions, i, j) && x == ref_of(functions[i])
}

/// The functions that each function calls.
fn collect_targets(functions: &Vec<FunctionMetrics>) -> (all: Vec<Vec<usize>>)
    ensures
        all.len() == functions.len(),
        forall|i: int, j: usize|
            0 <= i < all.len() ==> (#[trigger] all@[i]@.contains(j) <==> calls(
                functions@,
                i,
                j as int,
            )),
{
    let by_name = function_indexes_by_name(functions);
    let mut all: Vec<Vec<usize>> = Vec::new();
    for i in 0..functions.len()
        invariant
            is_name_index(by_name@, functions@, functions.len() as int),
            all.len() == i,
            forall|k: int, j: usize|
                0 <= k < i ==> (#[trigger] all@[k]@.contains(j) <==> calls(
                    functions@,
                    k,
                    j as int,
                )),
    {
        let targets = targets_of(functions, &by_name, i);
        all.push(targets);
    }
    all
}

/// Who is called by the functions that call each function: every list holds the
/// callers of one.
fn collect_callers(functions: &Vec<FunctionMetrics>, targets: &Vec<Vec<usize>>) -> (callers: Vec<
    Vec<String>,
>)
    requires
        targets.len() == functions.len(),
        forall|i: int, j: usize|
            0 <= i < targets.len() ==> (#[trigger] targets@[i]@.contains(j) <==> calls(
                functions@,
                i,
                j as int,
            )),
    ensures
        callers.len() == functions.len(),
        forall|j: int, x: Seq<char>|
            0 <= j < callers.len() ==> (#[trigger] views(callers@[j]@).contains(x)
                <==> callers_of(functions@, j).contains(x)),
{
    let n: usize = functions.len();
    let ghost all = functions@;
    let mut callers: Vec<Vec<String>> = Vec::new();
    for j in 0..n
        invariant
            callers.len() == j,
            forall|k: int| 0 <= k < j ==> (#[trigger] callers@[k])@.len() == 0,
    {
        callers.push(Vec::new());
    }
    assert forall|j: int, x: Seq<char>| 0 <= j < n implies (#[trigger] views(
        callers@[j]@,
    ).contains(x) <==> called_by(all, 0, j, x)) by {
        assert(callers@[j]@.len() == 0);
    }
    for i in 0..n
        invariant
            n == functions.len(),
            all == functions@,
            targets.len() == n,
            callers.len() == n,
            forall|k: int, j: usize|
                0 <= k < targets.len() ==> (#[trigger] targets@[k]@.contains(j) <==> calls(
                    all,
                    k,
                    j as int,
                )),
            forall|j: int, x: Seq<char>|
                0 <= j < n ==> (#[trigger] views(callers@[j]@).contains(x) <==> called_by(
                    all,
                    i as int,
                    j,
                    x,
                )),
    {
        let caller = function_ref(&functions[i]);
        let ghost mine = targets@[i as int]@;
        let m: usize = targets[i].len();
        for t in 0..m
            invariant
                n == functions.len(),
                i < n,
                all == functions@,
                targets.len() == n,
                callers.len() == n,
                mine == targets@[i as int]@,
                m == mine.len(),
                caller@ == ref_of(all[i as int]),
                forall|j: usize| #[trigger] mine.contains(j) <==> calls(all, i as int, j as int),
                forall|j: int, x: Seq<char>|
                    0 <= j < n ==> (#[trigger] views(callers@[j]@).contains(x) <==> called_by(
                        all,
                        i as int,
                        j,
                        x,
                    ) || (x == caller@ && mine.take(t as int).contains(j as usize))),
        {
            let place: usize = targets[i][t];
            assert(mine[t as int] == place);
            assert(mine.contains(place));
            let ghost before = callers@;
            let ghost old_list = callers@[place as int]@;
            callers[place].push(caller.clone());
            proof {
                assert(mine.take(t + 1) == mine.take(t as int).push(place));
                assert(views(callers@[place as int]@) == views(old_list).push(caller@));
                assert forall|j: int, x: Seq<char>| 0 <= j < n implies (#[trigger] views(
                    callers@[j]@,
                ).contains(x) <==> called_by(all, i as int, j, x) || (x == caller@ && mine.take(
                    t + 1,
                ).contains(j as usize))) by {
                    vstd::seq_lib::lemma_seq_contains_after_push(
                        mine.take(t as int),
                        place,
                        j as usize,
                    );
                    assert(views(before[j]@).contains(x) <==> called_by(all, i as int, j, x) || (x
                        == caller@ && mine.take(t as int).contains(j as usize)));
                    if j == place {
                        vstd::seq_lib::lemma_seq_contains_after_push(
                            views(old_list),
                            caller@,
                            x,
                        );
                    } else {
                        assert(callers@[j] == before[j]);
                    }
                }
            }
        }
        proof {
            assert(mine.take(m as int) == mine);
            assert forall|j: int, x: Seq<char>| 0 <= j < n implies (#[trigger] views(
                callers@[j]@,
            ).contains(x) <==> called_by(all, i + 1, j, x)) by {
                if called_by(all, i + 1, j, x) {
                    let k = choose|k: int|
                        k < i + 1 && #[trigger] calls(all, k, j) && x == ref_of(all[k]);
                    if k < i {
                        assert(called_by(all, i as int, j, x));
                    } else {
                        assert(mine.contains(j as usize));
                    }
                }
                if called_by(all, i as int, j, x) {
                    let k = choose|k: int|
                        k < i && #[trigger] calls(all, k, j) && x == ref_of(all[k]);
                    assert(k < i + 1 && calls(all, k, j));
                }
                if mine.contains(j as usize) && x == caller@ {
                    assert(calls(all, i as int, j));
                }
            }
        }
    }
    proof {
        assert forall|j: int, x: Seq<char>| 0 <= j < callers.len() implies (#[trigger] views(
            callers@[j]@,
        ).contains(x) <==> callers_of(all, j).contains(x)) by {
            if callers_of(all, j).contains(x) {
                let k = choose|k: int| #[trigger] calls(all, k, j) && x == ref_of(all[k]);
                assert(k < n && calls(all, k, j));
                assert(called_by(all, n as int, j, x));
            }
        }
    }
    callers
}

/// The references of the functions that function `i` calls.
fn collect_callees(functions: &Vec<FunctionMetrics>, targets: &Vec<usize>, i: usize) -> (list: Vec<
    String,
>)
    requires
        forall|j: usize| #[trigger] targets@.contains(j) <==> calls(functions@, i as int, j as int),
    ensures
        lists(list@, callees_of(functions@, i as int)),
{
    let ghost all = functions@;
    let mut list: Vec<String> = Vec::new();
    assert(views(list@) == Seq::<Seq<char>>::empty());
    for t in 0..targets.len()
        invariant
            all == functions@,
            forall|j: usize| #[trigger] targets@.contains(j) <==> calls(all, i as int, j as int),
            list.len() == t,
            forall|k: int|
                0 <= k < t ==> #[trigger] views(list@)[k] == ref_of(all[targets@[k] as int]),
    {
        let place: usize = targets[t];
        assert(targets@.contains(place));
        let ghost before = list@;
        list.push(function_ref(&functions[place]));
        proof {
            assert forall|k: int| 0 <= k < t + 1 implies #[trigger] views(list@)[k] == ref_of(
                all[targets@[k] as int],
            ) by {
                if k < t {
                    assert(views(before)[k] == views(list@)[k]);
                }
            }
        }
    }
    let ghost raw = views(list@);
    proof {
        let set = callees_of(all, i as int);
        assert forall|x: Seq<char>| #[trigger] raw.contains(x) <==> set.contains(x) by {
            if raw.contains(x) {
                let k = choose|k: int| 0 <= k < raw.len() && raw[k] == x;
                assert(targets@.contains(targets@[k]));
                assert(calls(all, i as int, targets@[k] as int));
            }
            if set.contains(x) {
                let j = choose|j: int| #[trigger] calls(all, i as int, j) && x == ref_of(all[j]);
                assert(calls(all, i as int, j));
                assert(0 <= j < all.len());
                assert(all.len() == functions.len());
                assert(functions.len() <= usize::MAX);
                assert((j as usize) as int == j);
                assert(targets@.contains(j as usize));
                let k = choose|k: int| 0 <= k < targets@.len() && targets@[k] == j as usize;
                assert(raw[k] == x);
            }
        }
    }
    sort_and_dedup(&mut list);
    list
}

/// Whether a function is told with who calls it, whom it calls, and whether it is
/// reached.
pub open spec fn is_coupled(
    after: FunctionMetrics,
    functions: Seq<FunctionMetrics>,
    i: int,
) -> bool {
    &&& after == (FunctionMetrics {
        coupling: after.coupling,
        reachability: after.reachability,
        ..functions[i]
    })
    &&& is_coupling(after.coupling, callers_of(functions, i), callees_of(functions, i))
    &&& is_marked(after.reachability, functions[i], is_called(functions, i))
}

/// The coupling that these callers and callees make.
fn coupling_metrics(callers: Vec<String>, callees: Vec<String>) -> (m: CouplingMetrics)
    ensures
        m.callers == callers,
        m.callees == callees,
        m.fan_in == callers@.len(),
        m.fan_out == callees@.len(),
        m.instability.numerator == m.fan_out,
        m.instability.denominator == m.fan_in + m.fan_out,
{
    let fan_in: usize = callers.len();
    let fan_out: usize = callees.len();
    CouplingMetrics {
        fan_in,
        fan_out,
        callers,
        callees,
        instability: Ratio {
            numerator: fan_out as u128,
            denominator: fan_in as u128 + fan_out as u128,
        },
    }
}

/// Tells every function with who calls it, whom it calls, and whether it is reached.
pub fn apply_coupling_and_reachability(functions: &mut Vec<FunctionMetrics>)
    ensures
        final(functions).len() == old(functions).len(),
        forall|i: int|
            0 <= i < final(functions).len() ==> is_coupled(
                #[trigger] final(functions)@[i],
                old(functions)@,
                i,
            ),
{
    let ghost all = functions@;
    let n: usize = functions.len();
    let targets = collect_targets(functions);
    let mut callers = collect_callers(functions, &targets);
    let mut callees: Vec<Vec<String>> = Vec::new();
    for i in 0..n
        invariant
            n == functions.len() == targets.len(),
            all == functions@,
            forall|k: int, j: usize|
                0 <= k < targets.len() ==> (#[trigger] targets@[k]@.contains(j) <==> calls(
                    all,
                    k,
                    j as int,
                )),
            callees.len() == i,
            forall|k: int| 0 <= k < i ==> lists((#[trigger] callees@[k])@, callees_of(all, k)),
    {
        callees.push(collect_callees(functions, &targets[i], i));
    }
    for i in 0..n
        invariant
            n == functions.len() == callers.len() == callees.len(),
            all == old(functions)@,
            forall|j: int, x: Seq<char>|
                i <= j < n ==> (#[trigger] views(callers@[j]@).contains(x) <==> callers_of(
                    all,
                    j,
                ).contains(x)),
            forall|k: int|
                i <= k < n ==> lists((#[trigger] callees@[k])@, callees_of(all, k)),
            forall|k: int| i <= k < n ==> functions@[k] == all[k],
            forall|k: int| 0 <= k < i ==> is_coupled(#[trigger] functions@[k], all, k),
    {
        let ghost untouched = functions@;
        let ghost old_callers = callers@;
        let ghost old_callees = callees@;
        let mut mine: Vec<String> = Vec::new();
        std::mem::swap(&mut mine, &mut callers[i]);
        let ghost raw = views(mine@);
        assert(views(old_callers[i as int]@) == raw);
        sort_and_dedup(&mut mine);
        proof {
            let set = callers_of(all, i as int);
            assert forall|x: Seq<char>| #[trigger] views(mine@).contains(x) <==> set.contains(
                x,
            ) by {
                assert(raw.contains(x) <==> set.contains(x));
            }
        }
        let mut theirs: Vec<String> = Vec::new();
        std::mem::swap(&mut theirs, &mut callees[i]);
        assert(lists(theirs@, callees_of(all, i as int)));
        let called = mine.len() > 0;
        proof {
            let set = callers_of(all, i as int);
            if mine.len() > 0 {
                assert(views(mine@)[0] == mine@[0]@);
                assert(views(mine@).contains(mine@[0]@));
                assert(set.contains(mine@[0]@));
            }
            if is_called(all, i as int) {
                let k = choose|k: int| #[trigger] calls(all, k, i as int);
                assert(set.contains(ref_of(all[k])));
                assert(views(mine@).contains(ref_of(all[k])));
            }
        }
        let function = &mut functions[i];
        function.coupling = coupling_metrics(mine, theirs);
        mark_reachable_if_needed(function, called);
        proof {
            assert(is_coupled(functions@[i as int], all, i as int));
            assert forall|k: int| 0 <= k < i + 1 implies is_coupled(
                #[trigger] functions@[k],
                all,
                k,
            ) by {
                if k < i {
                    assert(functions@[k] == untouched[k]);
                }
            }
            assert forall|j: int, x: Seq<char>| i + 1 <= j < n implies (#[trigger] views(
                callers@[j]@,
            ).contains(x) <==> callers_of(all, j).contains(x)) by {
                assert(callers@[j] == old_callers[j]);
            }
        }
    }
}

} // verus!
