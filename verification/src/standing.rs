//! Where a function stands among all: by counting those below it.

use crate::metrics::{Distributions, FunctionMetrics, NormalizedMetrics, Weights};
use crate::order::{
    is_stable_arrangement, is_stable_sort, lemma_arranged_count, places_where, Ranking,
};
use crate::score::{CountOrder, Ratio, Score, ScoreOrder};
use crate::scoring::{
    author_values, cap_of, churn_values, cognitive_values, contribution_list, cyclomatic_values,
    driver_names, fan_in_values, gap_values, is_cap, is_cap_of_scores, is_context, is_first_largest,
    is_score_cap, larger, loc_values, one, percentile_place, recent_values, risk_of, risk_values,
    Arithmetic, Contributions, NormalizationCaps, RiskNumbers, ScoringContext,
};
use vstd::prelude::*;

verus! {

/// The places of the values below a number.
pub open spec fn below(values: Seq<int>, v: int) -> Set<int> {
    Set::new(|i: int| 0 <= i < values.len() && values[i] < v)
}

/// The places of the values up to a number.
pub open spec fn up_to(values: Seq<int>, v: int) -> Set<int> {
    Set::new(|i: int| 0 <= i < values.len() && values[i] <= v)
}

/// The places of the values above a number.
pub open spec fn above(values: Seq<int>, v: int) -> Set<int> {
    Set::new(|i: int| 0 <= i < values.len() && values[i] > v)
}

/// Whether a value takes a place if all are lined up from the smallest: no more values
/// than that are below it, and more are up to it.
pub open spec fn takes_place(values: Seq<int>, place: int, v: int) -> bool {
    below(values, v).len() <= place < up_to(values, v).len()
}

/// Whether a value is the largest.
pub open spec fn is_top(values: Seq<int>, top: int) -> bool {
    values.contains(top) && forall|i: int| 0 <= i < values.len() ==> #[trigger] values[i] <= top
}

/// All places of a list can be counted.
proof fn lemma_counted(values: Seq<int>, v: int)
    ensures
        below(values, v).finite(),
        up_to(values, v).finite(),
        above(values, v).finite(),
        up_to(values, v).len() + above(values, v).len() == values.len(),
        below(values, v).subset_of(up_to(values, v)),
{
    let n = values.len() as int;
    let all = vstd::set_lib::set_int_range(0, n);
    vstd::set_lib::lemma_int_range(0, n);
    vstd::set_lib::lemma_len_subset(below(values, v), all);
    vstd::set_lib::lemma_len_subset(up_to(values, v), all);
    vstd::set_lib::lemma_len_subset(above(values, v), all);
    vstd::set_lib::lemma_set_disjoint_lens(up_to(values, v), above(values, v));
    assert(up_to(values, v) + above(values, v) =~= all);
}

/// Only one value takes a place.
pub proof fn lemma_one_takes_place(values: Seq<int>, place: int, v: int, w: int)
    requires
        takes_place(values, place, v),
        takes_place(values, place, w),
    ensures
        v == w,
{
    lemma_counted(values, v);
    lemma_counted(values, w);
    if v < w {
        assert(up_to(values, v).subset_of(below(values, w)));
        vstd::set_lib::lemma_len_subset(up_to(values, v), below(values, w));
    }
    if w < v {
        assert(up_to(values, w).subset_of(below(values, v)));
        vstd::set_lib::lemma_len_subset(up_to(values, w), below(values, v));
    }
}

/// The value at a place of a sorted list takes that place.
proof fn lemma_sorted_place<T, R: Ranking<T>>(
    rank: &R,
    key: spec_fn(T) -> int,
    values: Seq<T>,
    sorted: Seq<T>,
    k: int,
)
    requires
        is_stable_sort(rank, values, sorted),
        forall|a: T, b: T| #[trigger] rank.at_most(a, b) <==> key(a) <= key(b),
        0 <= k < sorted.len(),
    ensures
        sorted.len() == values.len(),
        takes_place(values.map_values(key), k, key(sorted[k])),
{
    let order = choose|order: Seq<int>| is_stable_arrangement(rank, values, sorted, order);
    let ints = values.map_values(key);
    let v = key(sorted[k]);
    let less = |x: T| key(x) < v;
    let at_most = |x: T| key(x) <= v;
    lemma_arranged_count(values, sorted, order, less);
    lemma_arranged_count(values, sorted, order, at_most);
    assert(places_where(values, less) =~= below(ints, v));
    assert(places_where(values, at_most) =~= up_to(ints, v));
    let a = places_where(sorted, less);
    let b = places_where(sorted, at_most);
    let first = vstd::set_lib::set_int_range(0, k);
    vstd::set_lib::lemma_int_range(0, k);
    assert forall|i: int| a.contains(i) implies first.contains(i) by {
        if k <= i {
            if k < i {
                assert(rank.at_most(sorted[k], sorted[i]));
            }
        }
    }
    vstd::set_lib::lemma_len_subset(a, first);
    let more = vstd::set_lib::set_int_range(0, k + 1);
    vstd::set_lib::lemma_int_range(0, k + 1);
    assert forall|i: int| more.contains(i) implies b.contains(i) by {
        if i < k {
            assert(rank.at_most(sorted[i], sorted[k]));
        }
    }
    vstd::set_lib::lemma_len_subset(more, b);
}

/// The last value of a sorted list is the largest.
proof fn lemma_sorted_top<T, R: Ranking<T>>(
    rank: &R,
    key: spec_fn(T) -> int,
    values: Seq<T>,
    sorted: Seq<T>,
)
    requires
        is_stable_sort(rank, values, sorted),
        forall|a: T, b: T| #[trigger] rank.at_most(a, b) <==> key(a) <= key(b),
        values.len() > 0,
    ensures
        is_top(values.map_values(key), key(sorted.last())),
{
    let n = values.len() as int;
    let ints = values.map_values(key);
    let order = choose|order: Seq<int>| is_stable_arrangement(rank, values, sorted, order);
    assert(sorted[n - 1] == values[order[n - 1]]);
    assert(ints[order[n - 1]] == key(sorted.last()));
    assert forall|i: int| 0 <= i < ints.len() implies #[trigger] ints[i] <= key(sorted.last()) by {
        crate::order::lemma_arrangement_covers(order, values.len(), i);
        let j = choose|j: int| 0 <= j < order.len() && order[j] == i;
        assert(sorted[j] == values[order[j]]);
        if j < n - 1 {
            assert(rank.at_most(sorted[j], sorted[n - 1]));
        }
    }
}

/// Whether counts are measured by this: the largest, unless it is more than three times
/// the one at 95 of 100; then the one at 99 of 100. At least by one.
pub open spec fn is_measure(cap: int, values: Seq<int>, top: int, p95: int, p99: int) -> bool {
    &&& is_top(values, top)
    &&& takes_place(values, (values.len() * 95 / 100) as int, p95)
    &&& takes_place(values, (values.len() * 99 / 100) as int, p99)
    &&& cap == {
        let chosen = if top > 3 * p95 {
            p99
        } else {
            top
        };
        if chosen < 1 {
            1
        } else {
            chosen
        }
    }
}

/// Whether the largest value is in proportion to the others: no more than three times
/// the one at 95 of 100.
pub open spec fn is_in_proportion(values: Seq<int>, top: int, p95: int) -> bool {
    &&& is_top(values, top)
    &&& takes_place(values, (values.len() * 95 / 100) as int, p95)
    &&& top <= 3 * p95
}

/// Whether counts are measured by this, and few of them go beyond it: at least 99 of a
/// hundred are up to it and no more than one of a hundred is above it; none is where the
/// largest is in proportion.
pub open spec fn is_measured_by(cap: int, values: Seq<int>) -> bool {
    &&& exists|top: int, p95: int, p99: int| #[trigger] is_measure(cap, values, top, p95, p99)
    &&& 100 * up_to(values, cap).len() >= 99 * values.len()
    &&& 100 * above(values, cap).len() <= values.len()
    &&& forall|top: int, p95: int| #[trigger]
        is_in_proportion(values, top, p95) ==> above(values, cap).len() == 0
}

/// Counts as integers.
pub open spec fn ints(values: Seq<u64>) -> Seq<int> {
    values.map_values(|x: u64| x as int)
}

/// Scores by their place among all scores.
pub open spec fn keys(values: Seq<Score>) -> Seq<int> {
    values.map_values(|x: Score| x.key())
}

proof fn lemma_places(n: nat)
    requires
        n > 0,
    ensures
        percentile_place(n, 95) == n * 95 / 100,
        percentile_place(n, 99) == n * 99 / 100,
        0 <= n * 95 / 100 < n,
        0 <= n * 99 / 100 < n,
        100 * (n - (n * 99 / 100 + 1)) <= n,
{
}

proof fn lemma_cap(cap: nat, values: Seq<u64>, sorted: Seq<u64>)
    requires
        values.len() > 0,
        is_stable_sort(&CountOrder, values, sorted),
        cap == cap_of(sorted),
    ensures
        is_measured_by(cap as int, ints(values)),
{
    let n = values.len();
    lemma_places(n);
    let key = |x: u64| x as int;
    let i95 = (n * 95 / 100) as int;
    let i99 = (n * 99 / 100) as int;
    let order = choose|order: Seq<int>| is_stable_arrangement(&CountOrder, values, sorted, order);
    lemma_sorted_place(&CountOrder, key, values, sorted, i95);
    lemma_sorted_place(&CountOrder, key, values, sorted, i99);
    lemma_sorted_top(&CountOrder, key, values, sorted);
    let all = ints(values);
    let top = sorted.last() as int;
    let p95 = sorted[i95] as int;
    let p99 = sorted[i99] as int;
    assert(is_measure(cap as int, all, top, p95, p99));
    lemma_counted(all, cap as int);
    lemma_counted(all, p99);
    if i99 < n - 1 {
        assert(CountOrder.at_most(sorted[i99], sorted[n - 1]));
    }
    assert(p99 <= cap);
    assert(up_to(all, p99).subset_of(up_to(all, cap as int)));
    vstd::set_lib::lemma_len_subset(up_to(all, p99), up_to(all, cap as int));
    assert forall|t: int, q: int| #[trigger] is_in_proportion(all, t, q) implies above(
        all,
        cap as int,
    ).len() == 0 by {
        lemma_one_takes_place(all, i95, q, p95);
        let k = choose|k: int| 0 <= k < all.len() && all[k] == t;
        assert(all[k] <= top);
        assert(cap >= top) by {
            let j = choose|j: int| 0 <= j < all.len() && all[j] == top;
            assert(all[j] <= t);
        }
        assert(above(all, cap as int) =~= Set::<int>::empty());
    }
}

/// Whether a score is the largest of some, or zero where all are negative.
pub open spec fn is_top_score(values: Seq<Score>, top: Score) -> bool {
    &&& forall|i: int| 0 <= i < values.len() ==> (#[trigger] values[i]).key() <= top.key()
    &&& values.contains(top) || (top.bits == 0 && forall|i: int|
        0 <= i < values.len() ==> (#[trigger] values[i]).key() < 0)
}

/// Whether scores are measured by this: the largest, unless the given function says that
/// it is more than three times the one at 95 of 100; then the one at 99 of 100. At least
/// by one.
pub open spec fn is_score_measure<T: Fn(Score, Score) -> bool>(
    cap: Score,
    values: Seq<Score>,
    top: Score,
    p95: Score,
    p99: Score,
    beyond: bool,
    thrice: T,
) -> bool {
    &&& is_top_score(values, top)
    &&& takes_place(keys(values), (values.len() * 95 / 100) as int, p95.key())
    &&& takes_place(keys(values), (values.len() * 99 / 100) as int, p99.key())
    &&& call_ensures(thrice, (top, p95), beyond)
    &&& ({
        let chosen = if beyond {
            p99
        } else {
            top
        };
        let one = Score { bits: 0x3ff0_0000_0000_0000 };
        cap == if chosen.key() > one.key() {
            chosen
        } else {
            one
        }
    })
}

/// Whether scores are measured by this.
pub open spec fn is_score_measured_by<T: Fn(Score, Score) -> bool>(
    cap: Score,
    values: Seq<Score>,
    thrice: T,
) -> bool {
    exists|top: Score, p95: Score, p99: Score, beyond: bool| #[trigger]
        is_score_measure(cap, values, top, p95, p99, beyond, thrice)
}

proof fn lemma_score_measure<T: Fn(Score, Score) -> bool>(
    cap: Score,
    values: Seq<Score>,
    sorted: Seq<Score>,
    top: Score,
    thrice: T,
)
    requires
        values.len() > 0,
        is_stable_sort(&ScoreOrder, values, sorted),
        top == sorted.last() || top == larger(Score { bits: 0 }, sorted.last()),
        is_score_cap(cap, sorted, top, thrice),
    ensures
        is_score_measured_by(cap, values, thrice),
{
    let n = values.len();
    lemma_places(n);
    let key = |x: Score| x.key();
    let order = choose|order: Seq<int>| is_stable_arrangement(&ScoreOrder, values, sorted, order);
    let i95 = (n * 95 / 100) as int;
    let i99 = (n * 99 / 100) as int;
    lemma_sorted_place(&ScoreOrder, key, values, sorted, i95);
    lemma_sorted_place(&ScoreOrder, key, values, sorted, i99);
    lemma_sorted_top(&ScoreOrder, key, values, sorted);
    let beyond = choose|beyond: bool| #[trigger]
        call_ensures(thrice, (top, sorted[percentile_place(n, 95)]), beyond) && cap == larger(
            if beyond {
                sorted[percentile_place(n, 99)]
            } else {
                top
            },
            one(),
        );
    assert(sorted[n - 1] == values[order[n - 1]]);
    assert(values.contains(sorted.last()));
    assert forall|i: int| 0 <= i < values.len() implies (#[trigger] values[i]).key()
        <= sorted.last().key() by {
        assert(keys(values)[i] <= sorted.last().key());
    }
    assert(is_score_measure(cap, values, top, sorted[i95], sorted[i99], beyond, thrice));
}

/// What each metric of the functions is measured by is found by counting: few functions
/// go beyond it, and where none stands out it is the largest. So a single function that
/// is out of all proportion does not make the others look harmless.
pub proof fn lemma_caps_are_found_by_counting<T: Fn(Score, Score) -> bool>(
    c: ScoringContext,
    functions: Seq<FunctionMetrics>,
    thrice: T,
)
    requires
        functions.len() > 0,
        is_context(c, functions, thrice),
    ensures
        ({
            let n = functions.len();
            &&& is_measured_by(
                c.caps.cognitive as int,
                Seq::new(n, |i: int| functions[i].cognitive_complexity as int),
            )
            &&& is_measured_by(
                c.caps.cyclomatic as int,
                Seq::new(n, |i: int| functions[i].cyclomatic_complexity as int),
            )
            &&& is_measured_by(
                c.caps.loc as int,
                Seq::new(n, |i: int| functions[i].lines_of_code as int),
            )
            &&& is_measured_by(
                c.caps.authors as int,
                Seq::new(n, |i: int| functions[i].authors_count as int),
            )
            &&& is_measured_by(
                c.caps.fan_in as int,
                Seq::new(n, |i: int| functions[i].coupling.fan_in as int),
            )
            &&& is_score_measured_by(
                c.caps.churn,
                Seq::new(n, |i: int| functions[i].churn_score),
                thrice,
            )
            &&& is_score_measured_by(
                c.caps.churn_recent,
                Seq::new(n, |i: int| functions[i].churn.windows.d7.score),
                thrice,
            )
            &&& is_score_measured_by(
                c.caps.coverage_gap,
                Seq::new(
                    n,
                    |i: int|
                        match functions[i].coverage {
                            Some(coverage) => coverage.risk_coverage_gap,
                            None => Score { bits: 0 },
                        },
                ),
                thrice,
            )
        }),
{
    let n = functions.len();
    lemma_cap(c.caps.cognitive as nat, cognitive_values(functions), c.cog_vals@);
    lemma_counts_capped(c.caps.cyclomatic, cyclomatic_values(functions));
    lemma_counts_capped(c.caps.loc, loc_values(functions));
    lemma_counts_capped(c.caps.authors, author_values(functions));
    lemma_counts_capped(c.caps.fan_in, fan_in_values(functions));
    lemma_score_measure(
        c.caps.churn,
        churn_values(functions),
        c.churn_vals@,
        c.max_values.churn,
        thrice,
    );
    lemma_scores_capped(c.caps.churn_recent, recent_values(functions), thrice);
    lemma_scores_capped(c.caps.coverage_gap, gap_values(functions), thrice);
    assert(ints(cognitive_values(functions)) =~= Seq::new(
        n,
        |i: int| functions[i].cognitive_complexity as int,
    ));
    assert(ints(cyclomatic_values(functions)) =~= Seq::new(
        n,
        |i: int| functions[i].cyclomatic_complexity as int,
    ));
    assert(ints(loc_values(functions)) =~= Seq::new(n, |i: int| functions[i].lines_of_code as int));
    assert(ints(author_values(functions)) =~= Seq::new(
        n,
        |i: int| functions[i].authors_count as int,
    ));
    assert(ints(fan_in_values(functions)) =~= Seq::new(
        n,
        |i: int| functions[i].coupling.fan_in as int,
    ));
    assert(churn_values(functions) =~= Seq::new(n, |i: int| functions[i].churn_score));
    assert(recent_values(functions) =~= Seq::new(
        n,
        |i: int| functions[i].churn.windows.d7.score,
    ));
    assert(gap_values(functions) =~= Seq::new(
        n,
        |i: int|
            match functions[i].coverage {
                Some(coverage) => coverage.risk_coverage_gap,
                None => Score { bits: 0 },
            },
    ));
}

proof fn lemma_counts_capped(cap: u64, values: Seq<u64>)
    requires
        values.len() > 0,
        is_cap(cap, values),
    ensures
        is_measured_by(cap as int, ints(values)),
{
    let sorted = choose|sorted: Seq<u64>| #[trigger]
        is_stable_sort(&CountOrder, values, sorted) && cap == cap_of(sorted);
    lemma_cap(cap as nat, values, sorted);
}

proof fn lemma_scores_capped<T: Fn(Score, Score) -> bool>(
    cap: Score,
    values: Seq<Score>,
    thrice: T,
)
    requires
        values.len() > 0,
        is_cap_of_scores(cap, values, thrice),
    ensures
        is_score_measured_by(cap, values, thrice),
{
    let sorted = choose|sorted: Seq<Score>| #[trigger]
        is_stable_sort(&ScoreOrder, values, sorted) && is_score_cap(
            cap,
            sorted,
            sorted.last(),
            thrice,
        );
    lemma_score_measure(cap, values, sorted, sorted.last(), thrice);
}

/// The largest values that are told are the largest of all functions.
pub proof fn lemma_largest_values_are_told<T: Fn(Score, Score) -> bool>(
    c: ScoringContext,
    functions: Seq<FunctionMetrics>,
    thrice: T,
)
    requires
        functions.len() > 0,
        is_context(c, functions, thrice),
    ensures
        forall|i: int|
            0 <= i < functions.len() ==> (#[trigger] functions[i]).cognitive_complexity
                <= c.max_values.cognitive && functions[i].cyclomatic_complexity
                <= c.max_values.cyclomatic && functions[i].lines_of_code <= c.max_values.loc
                && functions[i].churn_score.key() <= c.max_values.churn.key(),
        exists|i: int|
            0 <= i < functions.len() && (#[trigger] functions[i]).cognitive_complexity
                == c.max_values.cognitive,
        exists|i: int|
            0 <= i < functions.len() && (#[trigger] functions[i]).cyclomatic_complexity
                == c.max_values.cyclomatic,
        exists|i: int|
            0 <= i < functions.len() && (#[trigger] functions[i]).lines_of_code
                == c.max_values.loc,
        c.max_values.churn.bits == 0 || exists|i: int|
            0 <= i < functions.len() && (#[trigger] functions[i]).churn_score
                == c.max_values.churn,
{
    let cog = cognitive_values(functions);
    let cyc = cyclomatic_values(functions);
    let loc = loc_values(functions);
    let churn = churn_values(functions);
    let i = choose|i: int| 0 <= i < cog.len() && cog[i] == c.max_values.cognitive as u64;
    assert(functions[i].cognitive_complexity == c.max_values.cognitive);
    let j = choose|j: int| 0 <= j < cyc.len() && cyc[j] == c.max_values.cyclomatic as u64;
    assert(functions[j].cyclomatic_complexity == c.max_values.cyclomatic);
    let k = choose|k: int| 0 <= k < loc.len() && loc[k] == c.max_values.loc as u64;
    assert(functions[k].lines_of_code == c.max_values.loc);
    let key = |x: Score| x.key();
    lemma_sorted_top(&ScoreOrder, key, churn, c.churn_vals@);
    let order = choose|order: Seq<int>|
        is_stable_arrangement(&ScoreOrder, churn, c.churn_vals@, order);
    let n = functions.len();
    assert(c.churn_vals@[n - 1] == churn[order[n - 1]]);
    assert(functions[order[n - 1]].churn_score == c.churn_vals@.last());
    assert forall|i: int| 0 <= i < functions.len() implies (
    #[trigger] functions[i]).cognitive_complexity <= c.max_values.cognitive
        && functions[i].cyclomatic_complexity <= c.max_values.cyclomatic
        && functions[i].lines_of_code <= c.max_values.loc && functions[i].churn_score.key()
        <= c.max_values.churn.key() by {
        assert(cog[i] <= c.max_values.cognitive);
        assert(cyc[i] <= c.max_values.cyclomatic);
        assert(loc[i] <= c.max_values.loc);
        assert(keys(churn)[i] <= c.churn_vals@.last().key());
    }
}

/// The values at 95 of 100 are found by counting.
pub proof fn lemma_distributions_are_found_by_counting<NC, NS, RK, CB, T>(
    arithmetic: Arithmetic<NC, NS, RK, CB>,
    d: Distributions,
    scored: Seq<FunctionMetrics>,
    functions: Seq<FunctionMetrics>,
    c: ScoringContext,
    thrice: T,
) where
    NC: Fn(u64, u64) -> Score,
    NS: Fn(Score, Score) -> Score,
    RK: Fn(NormalizedMetrics, Weights, u32) -> RiskNumbers,
    CB: Fn(NormalizedMetrics, Weights) -> Contributions,
    T: Fn(Score, Score) -> bool,

    requires
        functions.len() > 0,
        scored.len() == functions.len(),
        is_context(c, functions, thrice),
        arithmetic.tells(d, scored, c),
    ensures
        ({
            let n = functions.len();
            let place = (n * 95 / 100) as int;
            &&& takes_place(
                Seq::new(n, |i: int| functions[i].cognitive_complexity as int),
                place,
                d.cognitive_p95 as int,
            )
            &&& takes_place(
                Seq::new(n, |i: int| functions[i].churn_score.key()),
                place,
                d.churn_p95.key(),
            )
            &&& takes_place(
                Seq::new(n, |i: int| risk_of(scored[i]).key()),
                place,
                d.risk_p95.key(),
            )
        }),
{
    let n = functions.len();
    lemma_places(n);
    let place = (n * 95 / 100) as int;
    let count_key = |x: u64| x as int;
    let key = |x: Score| x.key();
    lemma_sorted_place(
        &CountOrder,
        count_key,
        cognitive_values(functions),
        c.cog_vals@,
        place,
    );
    lemma_sorted_place(&ScoreOrder, key, churn_values(functions), c.churn_vals@, place);
    let sorted = choose|sorted: Seq<Score>| #[trigger]
        is_stable_sort(&ScoreOrder, risk_values(scored), sorted) && d.risk_p95 == sorted[place];
    let order = choose|order: Seq<int>|
        is_stable_arrangement(&ScoreOrder, risk_values(scored), sorted, order);
    lemma_sorted_place(&ScoreOrder, key, risk_values(scored), sorted, place);
    assert(ints(cognitive_values(functions)) =~= Seq::new(
        n,
        |i: int| functions[i].cognitive_complexity as int,
    ));
    assert(keys(churn_values(functions)) =~= Seq::new(n, |i: int| functions[i].churn_score.key()));
    assert(keys(risk_values(scored)) =~= Seq::new(n, |i: int| risk_of(scored[i]).key()));
}

/// Whether this is the part of the others that a function with `lower` others below it
/// leaves behind: the whole where there are no others.
pub open spec fn is_part_left_behind(r: Ratio, lower: nat, n: nat) -> bool {
    if n <= 1 {
        r.numerator == 1 && r.denominator == 1
    } else {
        r.numerator == lower && r.denominator == n - 1
    }
}

/// Whether a level goes with the part of the others that a function leaves behind: from
/// 95 of 100 on, from 80, from one half, or less.
pub open spec fn is_level_for(level: Seq<char>, r: Ratio) -> bool {
    let part = 100 * r.numerator;
    let whole = r.denominator;
    &&& level == "critical"@ <==> part >= 95 * whole
    &&& level == "high"@ <==> 80 * whole <= part < 95 * whole
    &&& level == "medium"@ <==> 50 * whole <= part < 80 * whole
    &&& level == "low"@ <==> part < 50 * whole
}

/// Whether no contribution is larger than one.
pub open spec fn is_greatest(x: Score, c: Contributions) -> bool {
    &&& c.cognitive.key() <= x.key()
    &&& c.churn.key() <= x.key()
    &&& c.churn_recent.key() <= x.key()
    &&& c.fan_in.key() <= x.key()
    &&& c.cyclomatic.key() <= x.key()
    &&& c.loc.key() <= x.key()
    &&& c.authors.key() <= x.key()
    &&& c.coverage_gap.key() <= x.key()
}

/// Whether a name is that of a metric which adds most.
pub open spec fn names_greatest(name: Seq<char>, c: Contributions) -> bool {
    ||| name == "cognitive"@ && is_greatest(c.cognitive, c)
    ||| name == "churn"@ && is_greatest(c.churn, c)
    ||| name == "churn_recent"@ && is_greatest(c.churn_recent, c)
    ||| name == "fan_in"@ && is_greatest(c.fan_in, c)
    ||| name == "cyclomatic"@ && is_greatest(c.cyclomatic, c)
    ||| name == "loc"@ && is_greatest(c.loc, c)
    ||| name == "authors"@ && is_greatest(c.authors, c)
    ||| name == "coverage_gap"@ && is_greatest(c.coverage_gap, c)
}

/// What a function is told beyond its risk: its percentiles are the parts of the others
/// that it leaves behind, its level goes with that of its risk, and what drives its risk
/// is a metric that adds most to it. Its risk and everything else stay as they were.
pub proof fn lemma_labels_are_found_by_counting<NC, NS, RK, CB>(
    arithmetic: Arithmetic<NC, NS, RK, CB>,
    after: Seq<FunctionMetrics>,
    before: Seq<FunctionMetrics>,
    scored: Seq<FunctionMetrics>,
    caps: NormalizationCaps,
    i: int,
) where
    NC: Fn(u64, u64) -> Score,
    NS: Fn(Score, Score) -> Score,
    RK: Fn(NormalizedMetrics, Weights, u32) -> RiskNumbers,
    CB: Fn(NormalizedMetrics, Weights) -> Contributions,

    requires
        arithmetic.is_report(after, before, scored, caps),
        0 <= i < before.len() <= usize::MAX,
    ensures
        ({
            let n = before.len();
            let f = scored[i];
            let p = after[i].percentile->0;
            &&& after.len() == n
            &&& after[i].percentile is Some
            &&& is_part_left_behind(
                p.risk,
                below(Seq::new(n, |k: int| risk_of(scored[k]).key()), risk_of(f).key()).len(),
                n,
            )
            &&& is_part_left_behind(
                p.churn,
                below(
                    Seq::new(n, |k: int| before[k].churn_score.key()),
                    before[i].churn_score.key(),
                ).len(),
                n,
            )
            &&& is_part_left_behind(
                p.cognitive,
                below(
                    Seq::new(n, |k: int| before[k].cognitive_complexity as int),
                    before[i].cognitive_complexity as int,
                ).len(),
                n,
            )
            &&& after[i].risk is Some
            &&& is_level_for(after[i].risk->0.level@, p.risk)
            &&& exists|c: Contributions| #[trigger]
                call_ensures(
                    arithmetic.contributions,
                    (
                        f.normalized->0,
                        (Weights {
                            cognitive: 35,
                            cyclomatic: 15,
                            churn: 30,
                            churn_recent: 0,
                            fan_in: 0,
                            loc: 10,
                            authors: 10,
                            coverage_gap: 0,
                        }),
                    ),
                    c,
                ) && names_greatest(after[i].risk->0.primary_driver@, c)
            &&& after[i] == (FunctionMetrics {
                normalized: f.normalized,
                risk: after[i].risk,
                percentile: after[i].percentile,
                ..before[i]
            })
            &&& after[i].risk->0.base_score == f.risk->0.base_score
            &&& after[i].risk->0.nesting_penalty == f.risk->0.nesting_penalty
            &&& after[i].risk->0.final_score == f.risk->0.final_score
        }),
{
    let n = before.len();
    assert(arithmetic.is_labelled(after[i], scored[i], scored));
    assert(arithmetic.is_scored(scored[i], before[i], caps));
    let f = scored[i];
    assert forall|k: int| 0 <= k < n implies (#[trigger] scored[k]).churn_score
        == before[k].churn_score && scored[k].cognitive_complexity
        == before[k].cognitive_complexity by {
        assert(arithmetic.is_scored(scored[k], before[k], caps));
    }
    let risks = Seq::new(n, |k: int| risk_of(scored[k]).key());
    let churns = Seq::new(n, |k: int| before[k].churn_score.key());
    let cogs = Seq::new(n, |k: int| before[k].cognitive_complexity as int);
    assert(places_where(
        risk_values(scored),
        |x: Score| x.key() < risk_of(f).key(),
    ) =~= below(risks, risk_of(f).key()));
    assert(places_where(
        churn_values(scored),
        |x: Score| x.key() < f.churn_score.key(),
    ) =~= below(churns, f.churn_score.key()));
    assert(places_where(
        cognitive_values(scored),
        |x: u64| x < f.cognitive_complexity as u64,
    ) =~= below(cogs, f.cognitive_complexity as int));
    lemma_below_fits(risks, risk_of(f).key());
    lemma_below_fits(churns, f.churn_score.key());
    lemma_below_fits(cogs, f.cognitive_complexity as int);
    lemma_levels_apart();
    let c = choose|c: Contributions| #[trigger]
        call_ensures(
            arithmetic.contributions,
            (f.normalized->0, crate::scoring::default_weights()),
            c,
        ) && crate::scoring::is_driver(after[i].risk->0.primary_driver@, c);
    let k = choose|k: int| #[trigger]
        is_first_largest(contribution_list(c), k) && after[i].risk->0.primary_driver@
            == driver_names()[k];
    let list = contribution_list(c);
    assert(list.len() == 8);
    assert(list[0].key() <= list[k].key() && list[1].key() <= list[k].key() && list[2].key()
        <= list[k].key() && list[3].key() <= list[k].key() && list[4].key() <= list[k].key()
        && list[5].key() <= list[k].key() && list[6].key() <= list[k].key() && list[7].key()
        <= list[k].key());
    assert(names_greatest(after[i].risk->0.primary_driver@, c));
}

proof fn lemma_below_fits(values: Seq<int>, v: int)
    requires
        values.len() <= usize::MAX,
    ensures
        below(values, v).len() <= usize::MAX,
{
    lemma_counted(values, v);
    vstd::set_lib::lemma_len_subset(below(values, v), up_to(values, v));
}

proof fn lemma_levels_apart()
    ensures
        "critical"@ != "high"@,
        "critical"@ != "medium"@,
        "critical"@ != "low"@,
        "high"@ != "medium"@,
        "high"@ != "low"@,
        "medium"@ != "low"@,
{
    reveal_strlit("critical");
    reveal_strlit("high");
    reveal_strlit("medium");
    reveal_strlit("low");
    assert("critical"@.len() == 8 && "high"@.len() == 4 && "medium"@.len() == 6 && "low"@.len()
        == 3);
}

/// Each metric of a function is normalized by what that metric is measured by, and the
/// risk is taken from the normalized metrics with the weights 35, 30, 15, 10 and 10 of
/// a hundred, and from the nesting depth.
pub proof fn lemma_each_metric_has_its_own_measure<NC, NS, RK, CB>(
    arithmetic: Arithmetic<NC, NS, RK, CB>,
    after: FunctionMetrics,
    before: FunctionMetrics,
    caps: NormalizationCaps,
) where
    NC: Fn(u64, u64) -> Score,
    NS: Fn(Score, Score) -> Score,
    RK: Fn(NormalizedMetrics, Weights, u32) -> RiskNumbers,
    CB: Fn(NormalizedMetrics, Weights) -> Contributions,

    requires
        arithmetic.is_scored(after, before, caps),
    ensures
        ({
            let n = after.normalized->0;
            let r = after.risk->0;
            let count = arithmetic.normalize_count;
            let score = arithmetic.normalize_score;
            &&& after.normalized is Some
            &&& call_ensures(
                count,
                (before.cognitive_complexity as u64, caps.cognitive),
                n.cognitive,
            )
            &&& call_ensures(
                count,
                (before.cyclomatic_complexity as u64, caps.cyclomatic),
                n.cyclomatic,
            )
            &&& call_ensures(count, (before.lines_of_code as u64, caps.loc), n.loc)
            &&& call_ensures(count, (before.authors_count as u64, caps.authors), n.authors)
            &&& call_ensures(count, (before.coupling.fan_in as u64, caps.fan_in), n.fan_in)
            &&& call_ensures(score, (before.churn_score, caps.churn), n.churn)
            &&& call_ensures(
                score,
                (before.churn.windows.d7.score, caps.churn_recent),
                n.churn_recent,
            )
            &&& before.coverage is Some <==> n.coverage_gap is Some
            &&& before.coverage is Some ==> call_ensures(
                score,
                (before.coverage->0.risk_coverage_gap, caps.coverage_gap),
                n.coverage_gap->0,
            )
            &&& after.risk is Some
            &&& call_ensures(
                arithmetic.risk,
                (
                    n,
                    (Weights {
                        cognitive: 35,
                        cyclomatic: 15,
                        churn: 30,
                        churn_recent: 0,
                        fan_in: 0,
                        loc: 10,
                        authors: 10,
                        coverage_gap: 0,
                    }),
                    before.nesting_depth,
                ),
                (RiskNumbers {
                    base_score: r.base_score,
                    nesting_penalty: r.nesting_penalty,
                    final_score: r.final_score,
                }),
            )
            &&& after == (FunctionMetrics {
                normalized: after.normalized,
                risk: after.risk,
                ..before
            })
        }),
{
}

} // verus!
