//! The same functions, coverage and history always give the same metrics.

use crate::authors::{
    authors_of, contribution, held_of, is_bus_factor, is_contributor, makes_up_half,
    sum_of, LargestFirst,
};
use crate::cache::GitCacheEntry;
use crate::coupling::{callees_of, callers_of, calls, is_called, is_coupled, ref_of};
use crate::coverage::{coverages, has_coverage, CoverageIndex};
use crate::git::alike::{caches_agree, lemma_caches_in_step};
use crate::git::churn::{
    authors_in, commits_in, ever, fixes_in, has_churn, has_history, have_churn, in_days,
    is_range_churn, latest_in, lemma_same_changes_selected, Selection,
};
use crate::git::told::{entry_agrees, lemma_changes_by_told, lemma_told_occur};
use crate::metrics::{
    all_alike, told_alike, ChurnMetrics, DeadCodeFunction, DeadCodeStats, Distributions,
    FunctionMetrics, Hotspot, NormalizedMetrics, ProjectCoverage, ProjectStats, SummaryStats,
    Weights,
};
use crate::order::{
    is_arrangement, is_stable_sort, lemma_arrangement_covers, lemma_sort_ignores_arrangement,
    lemma_sorts_alike, lemma_stable_sort_unique, Ranking,
};
use crate::ranking::{are_hotspots, effective_key, hotspots_of, HotspotOrder, SortKey};
use crate::report::{
    are_coupled, are_covered, are_weighed, is_measured, limited, went_through, Measured, Numbers,
    Stages,
};
use crate::score::{lemma_score_key_injective, CountOrder, Ratio, Score, ScoreOrder};
use crate::scoring::{
    author_values, churn_values, cognitive_values, contribution_list, cyclomatic_values,
    default_weights, driver_names, fan_in_values, gap_values, is_cap, is_cap_of_scores, is_context,
    is_driver, is_first_largest, is_largest, is_score_cap, loc_values, percentile_place, ranks_of,
    recent_values, risk_of, risk_values, Arithmetic, Contributions, NormalizationCaps, RiskNumbers,
    ScoringContext,
};
use crate::stats::{
    count_exposed, count_of_kind, dead_function, has_weighed_gap, is_bus_factor_of, is_mean,
    is_project, is_project_coverage, known_coverage, tells_contributions, total_complexity,
    never_reached, total_lines,
};
use crate::table::{lemma_ascending_unique, TextMap};
use crate::text::views;
use crate::worker::are_functions_of;
use vstd::prelude::*;

verus! {

impl<NC, NS, RK, CB> Arithmetic<NC, NS, RK, CB> where
    NC: Fn(u64, u64) -> Score,
    NS: Fn(Score, Score) -> Score,
    RK: Fn(NormalizedMetrics, Weights, u32) -> RiskNumbers,
    CB: Fn(NormalizedMetrics, Weights) -> Contributions,
 {
    /// Whether the same values always give the same result.
    pub open spec fn is_functional(self) -> bool {
        &&& forall|a: u64, b: u64, x: Score, y: Score| #[trigger]
            call_ensures(self.normalize_count, (a, b), x) && #[trigger] call_ensures(
                self.normalize_count,
                (a, b),
                y,
            ) ==> x == y
        &&& forall|a: Score, b: Score, x: Score, y: Score| #[trigger]
            call_ensures(self.normalize_score, (a, b), x) && #[trigger] call_ensures(
                self.normalize_score,
                (a, b),
                y,
            ) ==> x == y
        &&& forall|n: NormalizedMetrics, w: Weights, d: u32, x: RiskNumbers, y: RiskNumbers|
         #[trigger]
            call_ensures(self.risk, (n, w, d), x) && #[trigger] call_ensures(self.risk, (n, w, d), y)
                ==> x == y
        &&& forall|n: NormalizedMetrics, w: Weights, x: Contributions, y: Contributions| #[trigger]
            call_ensures(self.contributions, (n, w), x) && #[trigger] call_ensures(
                self.contributions,
                (n, w),
                y,
            ) ==> x == y
    }
}

/// Whether the same ratio always gives the same gap.
pub open spec fn is_gap_functional<G: Fn(Ratio) -> Score>(gap: G) -> bool {
    forall|r: Ratio, x: Score, y: Score| #[trigger]
        call_ensures(gap, (r,), x) && #[trigger] call_ensures(gap, (r,), y) ==> x == y
}

/// Whether the same scores are always told apart in the same way.
pub open spec fn is_thrice_functional<T: Fn(Score, Score) -> bool>(thrice: T) -> bool {
    forall|a: Score, b: Score, x: bool, y: bool| #[trigger]
        call_ensures(thrice, (a, b), x) && #[trigger] call_ensures(thrice, (a, b), y) ==> x == y
}

/// Whether the same risk and the same ratio always give the same gap.
pub open spec fn is_weigh_functional<W: Fn(Score, Ratio) -> Score>(weigh: W) -> bool {
    forall|a: Score, r: Ratio, x: Score, y: Score| #[trigger]
        call_ensures(weigh, (a, r), x) && #[trigger] call_ensures(weigh, (a, r), y) ==> x == y
}

/// Whether the same ratios always have the same mean.
pub open spec fn is_mean_functional<M: Fn(&Vec<Ratio>) -> Score>(mean: M) -> bool {
    forall|ratios: Seq<Ratio>, x: Score, y: Score| #[trigger]
        is_mean(mean, ratios, x) && #[trigger] is_mean(mean, ratios, y) ==> x == y
}

/// Two analyses of the same file tell the same of its functions.
pub proof fn lemma_analysis_is_deterministic(
    a: Seq<FunctionMetrics>,
    b: Seq<FunctionMetrics>,
    source: Seq<u8>,
    path: Seq<char>,
)
    requires
        are_functions_of(a, source, path),
        are_functions_of(b, source, path),
    ensures
        all_alike(a, b),
{
    assert forall|i: int| 0 <= i < a.len() implies told_alike(#[trigger] a[i], b[i]) by {
        let x = a[i];
        let y = b[i];
        lemma_ascending_unique(views(x.coupling.callees@), views(y.coupling.callees@));
        assert(views(x.coupling.callers@) =~= views(y.coupling.callers@));
        assert(x.churn.velocity@ =~= y.churn.velocity@);
        assert(x.comment_ratio == y.comment_ratio);
        assert(x.identifier_verbosity == y.identifier_verbosity);
        assert(x.churn_score == y.churn_score);
        assert(x.churn.score == y.churn.score);
    }
}

/// Whether the same numbers always give the same churn score.
pub open spec fn is_score_functional<F: Fn(u128, usize) -> Score>(score: F) -> bool {
    forall|weight: u128, authors: usize, x: Score, y: Score| #[trigger]
        call_ensures(score, (weight, authors), x) && #[trigger] call_ensures(
            score,
            (weight, authors),
            y,
        ) ==> x == y
}

/// The same is selected from the changes of histories that tell the same.
proof fn lemma_selected_same(a: GitCacheEntry, b: GitCacheEntry, s: Selection)
    requires
        entry_agrees(a, b),
    ensures
        a.line_changes@.len() == b.line_changes@.len(),
        commits_in(a.line_changes@, s) == commits_in(b.line_changes@, s),
        fixes_in(a.line_changes@, s) == fixes_in(b.line_changes@, s),
        authors_in(a.line_changes@, s) == authors_in(b.line_changes@, s),
        latest_in(a.line_changes@, s) == latest_in(b.line_changes@, s),
{
    lemma_told_occur(a.line_changes@, b.line_changes@);
    lemma_told_occur(b.line_changes@, a.line_changes@);
    lemma_same_changes_selected(a.line_changes@, b.line_changes@, s);
}

/// The same lines of a file have only one history.
proof fn lemma_churn_same<F: Fn(u128, usize) -> Score>(
    x: ChurnMetrics,
    entry: GitCacheEntry,
    y: ChurnMetrics,
    entry2: GitCacheEntry,
    start_line: u32,
    end_line: u32,
    reference: i64,
    score: F,
)
    requires
        is_score_functional(score),
        entry_agrees(entry, entry2),
        is_range_churn(x, entry, start_line, end_line, reference, score),
        is_range_churn(y, entry2, start_line, end_line, reference, score),
    ensures
        x.times_modified == y.times_modified,
        x.bug_fix_commits == y.bug_fix_commits,
        x.authors_count == y.authors_count,
        views(x.authors@) == views(y.authors@),
        x.churn_score == y.churn_score,
        x.last_modified is Some == y.last_modified is Some,
        x.last_modified is Some ==> x.last_modified->0@ == y.last_modified->0@,
        x.windows == y.windows,
        x.velocity@ == y.velocity@,
{
    let changes = entry.line_changes@;
    lemma_selected_same(entry, entry2, ever(0, u32::MAX));
    lemma_selected_same(entry, entry2, in_days(0, u32::MAX, reference, 7));
    lemma_selected_same(entry, entry2, in_days(0, u32::MAX, reference, 30));
    lemma_selected_same(entry, entry2, in_days(0, u32::MAX, reference, 90));
    lemma_selected_same(entry, entry2, ever(start_line, end_line));
    lemma_selected_same(entry, entry2, in_days(start_line, end_line, reference, 7));
    lemma_selected_same(entry, entry2, in_days(start_line, end_line, reference, 30));
    lemma_selected_same(entry, entry2, in_days(start_line, end_line, reference, 90));
    if changes.len() > 0 {
        if commits_in(changes, ever(start_line, end_line)).len() == 0 {
            assert(views(x.authors@) =~= views(y.authors@));
        } else {
            let a = views(x.authors@);
            let b = views(y.authors@);
            assert forall|n: Seq<char>| #[trigger] a.contains(n) <==> b.contains(n) by {
                assert(a.to_set().contains(n) <==> b.to_set().contains(n));
            }
            lemma_ascending_unique(a, b);
        }
    }
}

/// Functions that are told alike are told alike with their history, as long as it
/// tells the same.
pub proof fn lemma_history_is_told_alike<F: Fn(u128, usize) -> Score>(
    after: Seq<FunctionMetrics>,
    before: Seq<FunctionMetrics>,
    git_cache: TextMap<GitCacheEntry>,
    after2: Seq<FunctionMetrics>,
    before2: Seq<FunctionMetrics>,
    git_cache2: TextMap<GitCacheEntry>,
    path: Seq<char>,
    include_authors: bool,
    reference: i64,
    score: F,
)
    requires
        is_score_functional(score),
        caches_agree(git_cache, git_cache2),
        all_alike(before, before2),
        have_churn(after, before, git_cache, path, include_authors, reference, score),
        have_churn(after2, before2, git_cache2, path, include_authors, reference, score),
    ensures
        all_alike(after, after2),
{
    lemma_caches_in_step(git_cache, git_cache2);
    assert forall|i: int| 0 <= i < after.len() implies told_alike(
        #[trigger] after[i],
        after2[i],
    ) by {
        assert(told_alike(before[i], before2[i]));
        if git_cache@.contains_key(path) {
            let entry = git_cache@[path];
            let entry2 = git_cache2@[path];
            let a = before[i];
            let b = before2[i];
            let x = choose|churn: ChurnMetrics|
                is_range_churn(churn, entry, a.line, a.end_line, reference, score)
                    && #[trigger] has_churn(after[i], a, churn, path, include_authors);
            assert(has_history(after2[i], b, entry2, path, include_authors, reference, score));
            let y = choose|churn: ChurnMetrics|
                is_range_churn(churn, entry2, b.line, b.end_line, reference, score)
                    && #[trigger] has_churn(after2[i], b, churn, path, include_authors);
            lemma_churn_same(x, entry, y, entry2, a.line, a.end_line, reference, score);
        }
    }
}

/// Whether two reports on coverage read the same.
pub open spec fn indexes_alike(a: Option<CoverageIndex>, b: Option<CoverageIndex>) -> bool {
    match (a, b) {
        (Some(x), Some(y)) => coverages(x.files@) == coverages(y.files@),
        (None, None) => true,
        _ => false,
    }
}

/// Functions that are told alike are told alike with their coverage.
proof fn lemma_covered_alike<G: Fn(Ratio) -> Score>(
    after: Seq<FunctionMetrics>,
    before: Seq<FunctionMetrics>,
    coverage: Option<CoverageIndex>,
    after2: Seq<FunctionMetrics>,
    before2: Seq<FunctionMetrics>,
    coverage2: Option<CoverageIndex>,
    gap: G,
)
    requires
        is_gap_functional(gap),
        indexes_alike(coverage, coverage2),
        all_alike(before, before2),
        are_covered(after, before, coverage, gap),
        are_covered(after2, before2, coverage2, gap),
    ensures
        all_alike(after, after2),
{
    assert forall|i: int| 0 <= i < after.len() implies told_alike(
        #[trigger] after[i],
        after2[i],
    ) by {
        assert(told_alike(before[i], before2[i]));
        if let Some(index) = coverage {
            assert(has_coverage(after[i], before[i], coverages(index.files@), gap));
            assert(has_coverage(after2[i], before2[i], coverages(index.files@), gap));
            if coverages(index.files@).contains_key(before[i].file@) {
                let x = after[i].coverage->0;
                let y = after2[i].coverage->0;
                assert(x.line_coverage == y.line_coverage);
                assert(views(x.covered_by@) =~= views(y.covered_by@));
            }
        }
    }
}

/// In lists of functions that are told alike the same functions call each other.
proof fn lemma_calls_alike(a: Seq<FunctionMetrics>, b: Seq<FunctionMetrics>, i: int)
    requires
        all_alike(a, b),
    ensures
        callers_of(a, i) == callers_of(b, i),
        callees_of(a, i) == callees_of(b, i),
        is_called(a, i) == is_called(b, i),
{
    assert forall|k: int, j: int| #[trigger] calls(a, k, j) == calls(b, k, j) by {
        if 0 <= k < a.len() && 0 <= j < a.len() {
            assert(told_alike(a[k], b[k]));
            assert(told_alike(a[j], b[j]));
        }
    }
    assert forall|k: int| 0 <= k < a.len() implies ref_of(#[trigger] a[k]) == ref_of(b[k]) by {
        assert(told_alike(a[k], b[k]));
    }
    assert forall|x: Seq<char>| #[trigger] callers_of(a, i).contains(x) == callers_of(b, i).contains(
        x,
    ) by {
        if callers_of(a, i).contains(x) {
            let k = choose|k: int| #[trigger] calls(a, k, i) && x == ref_of(a[k]);
            assert(calls(b, k, i) && x == ref_of(b[k]));
        }
        if callers_of(b, i).contains(x) {
            let k = choose|k: int| #[trigger] calls(b, k, i) && x == ref_of(b[k]);
            assert(calls(a, k, i) && x == ref_of(a[k]));
        }
    }
    assert forall|x: Seq<char>| #[trigger] callees_of(a, i).contains(x) == callees_of(b, i).contains(
        x,
    ) by {
        if callees_of(a, i).contains(x) {
            let k = choose|k: int| #[trigger] calls(a, i, k) && x == ref_of(a[k]);
            assert(calls(b, i, k) && x == ref_of(b[k]));
        }
        if callees_of(b, i).contains(x) {
            let k = choose|k: int| #[trigger] calls(b, i, k) && x == ref_of(b[k]);
            assert(calls(a, i, k) && x == ref_of(a[k]));
        }
    }
    assert(callers_of(a, i) =~= callers_of(b, i));
    assert(callees_of(a, i) =~= callees_of(b, i));
    if is_called(a, i) {
        let k = choose|k: int| #[trigger] calls(a, k, i);
        assert(calls(b, k, i));
    }
    if is_called(b, i) {
        let k = choose|k: int| #[trigger] calls(b, k, i);
        assert(calls(a, k, i));
    }
}

/// Functions that are told alike are told alike with who calls them.
proof fn lemma_coupled_alike(
    after: Seq<FunctionMetrics>,
    before: Seq<FunctionMetrics>,
    after2: Seq<FunctionMetrics>,
    before2: Seq<FunctionMetrics>,
)
    requires
        all_alike(before, before2),
        are_coupled(after, before),
        are_coupled(after2, before2),
    ensures
        all_alike(after, after2),
{
    assert forall|i: int| 0 <= i < after.len() implies told_alike(
        #[trigger] after[i],
        after2[i],
    ) by {
        assert(told_alike(before[i], before2[i]));
        lemma_calls_alike(before, before2, i);
        assert(is_coupled(after[i], before, i));
        assert(is_coupled(after2[i], before2, i));
        let x = after[i].coupling;
        let y = after2[i].coupling;
        lemma_ascending_unique(views(x.callers@), views(y.callers@));
        lemma_ascending_unique(views(x.callees@), views(y.callees@));
        assert(views(x.callers@).len() == x.callers@.len());
        assert(views(y.callers@).len() == y.callers@.len());
        assert(views(x.callees@).len() == x.callees@.len());
        assert(views(y.callees@).len() == y.callees@.len());
    }
}

/// Functions that are told alike have the same values.
proof fn lemma_values_alike(a: Seq<FunctionMetrics>, b: Seq<FunctionMetrics>)
    requires
        all_alike(a, b),
    ensures
        cognitive_values(a) == cognitive_values(b),
        cyclomatic_values(a) == cyclomatic_values(b),
        loc_values(a) == loc_values(b),
        author_values(a) == author_values(b),
        fan_in_values(a) == fan_in_values(b),
        churn_values(a) == churn_values(b),
        recent_values(a) == recent_values(b),
        gap_values(a) == gap_values(b),
        risk_values(a) == risk_values(b),
{
    assert(forall|i: int| 0 <= i < a.len() ==> told_alike(#[trigger] a[i], b[i]));
    assert(cognitive_values(a) =~= cognitive_values(b));
    assert(cyclomatic_values(a) =~= cyclomatic_values(b));
    assert(loc_values(a) =~= loc_values(b));
    assert(author_values(a) =~= author_values(b));
    assert(fan_in_values(a) =~= fan_in_values(b));
    assert(churn_values(a) =~= churn_values(b));
    assert(recent_values(a) =~= recent_values(b));
    assert(gap_values(a) =~= gap_values(b));
    assert(risk_values(a) =~= risk_values(b));
}

/// Some values have only one cap.
proof fn lemma_caps_same(x: u64, y: u64, values: Seq<u64>)
    requires
        is_cap(x, values),
        is_cap(y, values),
    ensures
        x == y,
{
    let a = choose|sorted: Seq<u64>| #[trigger]
        is_stable_sort(&CountOrder, values, sorted) && x == crate::scoring::cap_of(sorted);
    let b = choose|sorted: Seq<u64>| #[trigger]
        is_stable_sort(&CountOrder, values, sorted) && y == crate::scoring::cap_of(sorted);
    lemma_stable_sort_unique(&CountOrder, values, a, b);
}

/// Some scores have only one cap.
proof fn lemma_score_caps_same<T: Fn(Score, Score) -> bool>(
    x: Score,
    y: Score,
    values: Seq<Score>,
    thrice: T,
)
    requires
        is_thrice_functional(thrice),
        is_cap_of_scores(x, values, thrice),
        is_cap_of_scores(y, values, thrice),
    ensures
        x == y,
{
    let a = choose|sorted: Seq<Score>| #[trigger]
        is_stable_sort(&ScoreOrder, values, sorted) && is_score_cap(
            x,
            sorted,
            sorted.last(),
            thrice,
        );
    let b = choose|sorted: Seq<Score>| #[trigger]
        is_stable_sort(&ScoreOrder, values, sorted) && is_score_cap(
            y,
            sorted,
            sorted.last(),
            thrice,
        );
    lemma_stable_sort_unique(&ScoreOrder, values, a, b);
}

/// Some numbers have only one largest.
proof fn lemma_largest_same(x: u32, y: u32, values: Seq<u64>)
    requires
        is_largest(x, values),
        is_largest(y, values),
    ensures
        x == y,
{
    let i = choose|i: int| 0 <= i < values.len() && values[i] == x as u64;
    let j = choose|j: int| 0 <= j < values.len() && values[j] == y as u64;
    assert(values[i] <= y && values[j] <= x);
}

/// The scores of functions that are told alike rest on the same.
proof fn lemma_contexts_alike<T: Fn(Score, Score) -> bool>(
    c: ScoringContext,
    a: Seq<FunctionMetrics>,
    d: ScoringContext,
    b: Seq<FunctionMetrics>,
    thrice: T,
)
    requires
        is_thrice_functional(thrice),
        all_alike(a, b),
        is_context(c, a, thrice),
        is_context(d, b, thrice),
    ensures
        c.max_values == d.max_values,
        c.caps == d.caps,
        c.cog_vals@ == d.cog_vals@,
        c.churn_vals@ == d.churn_vals@,
{
    lemma_values_alike(a, b);
    lemma_stable_sort_unique(&CountOrder, cognitive_values(a), c.cog_vals@, d.cog_vals@);
    lemma_stable_sort_unique(&ScoreOrder, churn_values(a), c.churn_vals@, d.churn_vals@);
    lemma_largest_same(c.max_values.cyclomatic, d.max_values.cyclomatic, cyclomatic_values(a));
    lemma_largest_same(c.max_values.cognitive, d.max_values.cognitive, cognitive_values(a));
    lemma_largest_same(c.max_values.loc, d.max_values.loc, loc_values(a));
    lemma_caps_same(c.caps.loc, d.caps.loc, loc_values(a));
    lemma_caps_same(c.caps.cyclomatic, d.caps.cyclomatic, cyclomatic_values(a));
    lemma_caps_same(c.caps.authors, d.caps.authors, author_values(a));
    lemma_caps_same(c.caps.fan_in, d.caps.fan_in, fan_in_values(a));
    lemma_score_caps_same(c.caps.churn_recent, d.caps.churn_recent, recent_values(a), thrice);
    lemma_score_caps_same(c.caps.coverage_gap, d.caps.coverage_gap, gap_values(a), thrice);
}

/// Counts that rank alike are the same.
proof fn lemma_sorted_counts_same(
    a: Seq<u64>,
    b: Seq<u64>,
    order: Seq<int>,
    x: Seq<u64>,
    y: Seq<u64>,
)
    requires
        is_arrangement(order, a.len()),
        b.len() == a.len(),
        forall|i: int| 0 <= i < b.len() ==> #[trigger] b[i] == a[order[i]],
        is_stable_sort(&CountOrder, a, x),
        is_stable_sort(&CountOrder, b, y),
    ensures
        x == y,
{
    lemma_sort_ignores_arrangement(&CountOrder, a, b, order, x, y);
}

/// Scores that rank alike are the same.
proof fn lemma_sorted_scores_same(
    a: Seq<Score>,
    b: Seq<Score>,
    order: Seq<int>,
    x: Seq<Score>,
    y: Seq<Score>,
)
    requires
        is_arrangement(order, a.len()),
        b.len() == a.len(),
        forall|i: int| 0 <= i < b.len() ==> #[trigger] b[i] == a[order[i]],
        is_stable_sort(&ScoreOrder, a, x),
        is_stable_sort(&ScoreOrder, b, y),
    ensures
        x == y,
{
    assert forall|u: Score, v: Score| #[trigger]
        ScoreOrder.at_most(u, v) && #[trigger] ScoreOrder.at_most(v, u) implies u == v by {
        lemma_score_key_injective(u, v);
    }
    lemma_sort_ignores_arrangement(&ScoreOrder, a, b, order, x, y);
}

/// Values have the same cap however they are arranged.
proof fn lemma_caps_ignore_order(x: u64, a: Seq<u64>, y: u64, b: Seq<u64>, order: Seq<int>)
    requires
        is_arrangement(order, a.len()),
        b.len() == a.len(),
        forall|i: int| 0 <= i < b.len() ==> #[trigger] b[i] == a[order[i]],
        is_cap(x, a),
        is_cap(y, b),
    ensures
        x == y,
{
    let u = choose|sorted: Seq<u64>| #[trigger]
        is_stable_sort(&CountOrder, a, sorted) && x == crate::scoring::cap_of(sorted);
    let v = choose|sorted: Seq<u64>| #[trigger]
        is_stable_sort(&CountOrder, b, sorted) && y == crate::scoring::cap_of(sorted);
    lemma_sorted_counts_same(a, b, order, u, v);
}

/// Scores have the same cap however they are arranged.
proof fn lemma_score_caps_ignore_order<T: Fn(Score, Score) -> bool>(
    x: Score,
    a: Seq<Score>,
    y: Score,
    b: Seq<Score>,
    order: Seq<int>,
    thrice: T,
)
    requires
        is_thrice_functional(thrice),
        is_arrangement(order, a.len()),
        b.len() == a.len(),
        forall|i: int| 0 <= i < b.len() ==> #[trigger] b[i] == a[order[i]],
        is_cap_of_scores(x, a, thrice),
        is_cap_of_scores(y, b, thrice),
    ensures
        x == y,
{
    let u = choose|sorted: Seq<Score>| #[trigger]
        is_stable_sort(&ScoreOrder, a, sorted) && is_score_cap(x, sorted, sorted.last(), thrice);
    let v = choose|sorted: Seq<Score>| #[trigger]
        is_stable_sort(&ScoreOrder, b, sorted) && is_score_cap(y, sorted, sorted.last(), thrice);
    lemma_sorted_scores_same(a, b, order, u, v);
}

/// Numbers have the same largest however they are arranged.
proof fn lemma_largest_ignores_order(x: u32, a: Seq<u64>, y: u32, b: Seq<u64>, order: Seq<int>)
    requires
        is_arrangement(order, a.len()),
        b.len() == a.len(),
        forall|i: int| 0 <= i < b.len() ==> #[trigger] b[i] == a[order[i]],
        is_largest(x, a),
        is_largest(y, b),
    ensures
        x == y,
{
    let k = choose|k: int| 0 <= k < a.len() && a[k] == x as u64;
    lemma_arrangement_covers(order, a.len(), k);
    let i = choose|i: int| 0 <= i < order.len() && order[i] == k;
    assert(b[i] == a[order[i]]);
    let j = choose|j: int| 0 <= j < b.len() && b[j] == y as u64;
    assert(b[j] == a[order[j]]);
    assert(0 <= order[j] < a.len());
}

/// What the scores of functions rest on does not depend on the order in which the
/// functions come.
pub proof fn lemma_context_ignores_order<T: Fn(Score, Score) -> bool>(
    c: ScoringContext,
    a: Seq<FunctionMetrics>,
    c2: ScoringContext,
    b: Seq<FunctionMetrics>,
    order: Seq<int>,
    thrice: T,
)
    requires
        is_thrice_functional(thrice),
        is_arrangement(order, a.len()),
        b.len() == a.len(),
        forall|i: int| 0 <= i < b.len() ==> #[trigger] b[i] == a[order[i]],
        is_context(c, a, thrice),
        is_context(c2, b, thrice),
    ensures
        c.max_values == c2.max_values,
        c.caps == c2.caps,
        c.cog_vals@ == c2.cog_vals@,
        c.churn_vals@ == c2.churn_vals@,
        c.p95_idx == c2.p95_idx,
{
    lemma_values_arranged(a, b, order);
    lemma_sorted_counts_same(
        cognitive_values(a),
        cognitive_values(b),
        order,
        c.cog_vals@,
        c2.cog_vals@,
    );
    lemma_sorted_scores_same(
        churn_values(a),
        churn_values(b),
        order,
        c.churn_vals@,
        c2.churn_vals@,
    );
    let m = c.max_values;
    let m2 = c2.max_values;
    lemma_largest_ignores_order(
        m.cyclomatic,
        cyclomatic_values(a),
        m2.cyclomatic,
        cyclomatic_values(b),
        order,
    );
    lemma_largest_ignores_order(
        m.cognitive,
        cognitive_values(a),
        m2.cognitive,
        cognitive_values(b),
        order,
    );
    lemma_largest_ignores_order(m.loc, loc_values(a), m2.loc, loc_values(b), order);
    let p = c.caps;
    let q = c2.caps;
    lemma_caps_ignore_order(p.loc, loc_values(a), q.loc, loc_values(b), order);
    lemma_caps_ignore_order(
        p.cyclomatic,
        cyclomatic_values(a),
        q.cyclomatic,
        cyclomatic_values(b),
        order,
    );
    lemma_caps_ignore_order(p.authors, author_values(a), q.authors, author_values(b), order);
    lemma_caps_ignore_order(p.fan_in, fan_in_values(a), q.fan_in, fan_in_values(b), order);
    lemma_score_caps_ignore_order(
        p.churn_recent,
        recent_values(a),
        q.churn_recent,
        recent_values(b),
        order,
        thrice,
    );
    lemma_score_caps_ignore_order(
        p.coverage_gap,
        gap_values(a),
        q.coverage_gap,
        gap_values(b),
        order,
        thrice,
    );
}

/// The values of functions are arranged as the functions are.
proof fn lemma_values_arranged(
    a: Seq<FunctionMetrics>,
    b: Seq<FunctionMetrics>,
    order: Seq<int>,
)
    requires
        is_arrangement(order, a.len()),
        b.len() == a.len(),
        forall|i: int| 0 <= i < b.len() ==> #[trigger] b[i] == a[order[i]],
    ensures
        forall|i: int|
            0 <= i < b.len() ==> #[trigger] cognitive_values(b)[i] == cognitive_values(a)[order[i]],
        forall|i: int|
            0 <= i < b.len() ==> #[trigger] cyclomatic_values(b)[i]
                == cyclomatic_values(a)[order[i]],
        forall|i: int|
            0 <= i < b.len() ==> #[trigger] loc_values(b)[i] == loc_values(a)[order[i]],
        forall|i: int|
            0 <= i < b.len() ==> #[trigger] author_values(b)[i] == author_values(a)[order[i]],
        forall|i: int|
            0 <= i < b.len() ==> #[trigger] fan_in_values(b)[i] == fan_in_values(a)[order[i]],
        forall|i: int|
            0 <= i < b.len() ==> #[trigger] churn_values(b)[i] == churn_values(a)[order[i]],
        forall|i: int|
            0 <= i < b.len() ==> #[trigger] recent_values(b)[i] == recent_values(a)[order[i]],
        forall|i: int|
            0 <= i < b.len() ==> #[trigger] gap_values(b)[i] == gap_values(a)[order[i]],
{
    assert forall|i: int| 0 <= i < b.len() implies 0 <= #[trigger] order[i] < a.len() && b[i]
        == a[order[i]] by {}
}

/// Functions that are told alike are told alike with their risk and their labels.
proof fn lemma_labelled_alike<NC, NS, RK, CB>(
    arithmetic: Arithmetic<NC, NS, RK, CB>,
    caps: NormalizationCaps,
    after: Seq<FunctionMetrics>,
    before: Seq<FunctionMetrics>,
    scored: Seq<FunctionMetrics>,
    after2: Seq<FunctionMetrics>,
    before2: Seq<FunctionMetrics>,
    scored2: Seq<FunctionMetrics>,
) where
    NC: Fn(u64, u64) -> Score,
    NS: Fn(Score, Score) -> Score,
    RK: Fn(NormalizedMetrics, Weights, u32) -> RiskNumbers,
    CB: Fn(NormalizedMetrics, Weights) -> Contributions,

    requires
        arithmetic.is_functional(),
        all_alike(before, before2),
        arithmetic.is_report(after, before, scored, caps),
        arithmetic.is_report(after2, before2, scored2, caps),
    ensures
        all_alike(scored, scored2),
        all_alike(after, after2),
{
    assert forall|i: int| 0 <= i < scored.len() implies told_alike(
        #[trigger] scored[i],
        scored2[i],
    ) by {
        assert(told_alike(before[i], before2[i]));
        assert(arithmetic.is_scored(scored[i], before[i], caps));
        assert(arithmetic.is_scored(scored2[i], before2[i], caps));
        assert(scored[i].normalized->0 == scored2[i].normalized->0);
        let x = scored[i].risk->0;
        let y = scored2[i].risk->0;
        assert(x.level@ =~= y.level@);
        assert(x.primary_driver@ =~= y.primary_driver@);
    }
    lemma_values_alike(scored, scored2);
    assert forall|i: int| 0 <= i < after.len() implies told_alike(
        #[trigger] after[i],
        after2[i],
    ) by {
        assert(told_alike(scored[i], scored2[i]));
        assert(arithmetic.is_labelled(after[i], scored[i], scored));
        assert(arithmetic.is_labelled(after2[i], scored2[i], scored2));
        assert(risk_of(scored[i]) == risk_of(scored2[i]));
        assert(ranks_of(scored[i], scored) == ranks_of(scored2[i], scored2));
        let n = scored[i].normalized->0;
        let x = after[i].risk->0.primary_driver@;
        let y = after2[i].risk->0.primary_driver@;
        let c = choose|c: Contributions| #[trigger]
            call_ensures(arithmetic.contributions, (n, default_weights()), c) && is_driver(x, c);
        let d = choose|c: Contributions| #[trigger]
            call_ensures(arithmetic.contributions, (n, default_weights()), c) && is_driver(y, c);
        assert(c == d);
        lemma_driver_same(x, y, c);
    }
}

/// Only one metric adds most to a base score.
proof fn lemma_driver_same(x: Seq<char>, y: Seq<char>, c: Contributions)
    requires
        is_driver(x, c),
        is_driver(y, c),
    ensures
        x == y,
{
    let list = contribution_list(c);
    let i = choose|k: int| #[trigger] is_first_largest(list, k) && x == driver_names()[k];
    let j = choose|k: int| #[trigger] is_first_largest(list, k) && y == driver_names()[k];
    assert(i == j);
}

/// Functions that are told alike are told alike with what is left uncovered.
proof fn lemma_weighed_alike<W: Fn(Score, Ratio) -> Score>(
    after: Seq<FunctionMetrics>,
    before: Seq<FunctionMetrics>,
    after2: Seq<FunctionMetrics>,
    before2: Seq<FunctionMetrics>,
    weigh: W,
)
    requires
        is_weigh_functional(weigh),
        all_alike(before, before2),
        are_weighed(after, before, weigh),
        are_weighed(after2, before2, weigh),
    ensures
        all_alike(after, after2),
{
    assert forall|i: int| 0 <= i < after.len() implies told_alike(
        #[trigger] after[i],
        after2[i],
    ) by {
        assert(told_alike(before[i], before2[i]));
        assert(has_weighed_gap(before[i], after[i], weigh));
        assert(has_weighed_gap(before2[i], after2[i], weigh));
        assert(risk_of(before[i]) == risk_of(before2[i]));
    }
}

/// Functions that are told alike are sorted alike.
proof fn lemma_sorted_alike(
    key: SortKey,
    a: Seq<FunctionMetrics>,
    b: Seq<FunctionMetrics>,
    x: Seq<FunctionMetrics>,
    y: Seq<FunctionMetrics>,
)
    requires
        all_alike(a, b),
        is_stable_sort(&key, a, x),
        is_stable_sort(&key, b, y),
    ensures
        all_alike(x, y),
{
    assert forall|i: int, j: int|
        #![trigger a[i], a[j]]
        0 <= i < a.len() && 0 <= j < a.len() implies key.at_most(a[i], a[j]) == key.at_most(
        b[i],
        b[j],
    ) by {
        assert(told_alike(a[i], b[i]));
        assert(told_alike(a[j], b[j]));
    }
    let order = lemma_sorts_alike(&key, a, b, x, y);
    assert forall|i: int| 0 <= i < x.len() implies told_alike(#[trigger] x[i], y[i]) by {
        assert(x[i] == a[order[i]] && y[i] == b[order[i]]);
        assert(0 <= order[i] < a.len());
        assert(told_alike(a[order[i]], b[order[i]]));
    }
}

/// Whether two hotspots read the same.
pub open spec fn hotspot_alike(a: Hotspot, b: Hotspot) -> bool {
    &&& a.id@ == b.id@
    &&& a.name@ == b.name@
    &&& a.file@ == b.file@
    &&& a.line == b.line
    &&& a.risk_score == b.risk_score
    &&& a.churn_score == b.churn_score
    &&& a.cognitive_complexity == b.cognitive_complexity
}

/// Whether two lists of hotspots read the same.
pub open spec fn hotspots_alike(a: Seq<Hotspot>, b: Seq<Hotspot>) -> bool {
    &&& a.len() == b.len()
    &&& forall|i: int| 0 <= i < a.len() ==> hotspot_alike(#[trigger] a[i], b[i])
}

/// Functions that are told alike have the same hotspots.
proof fn lemma_hotspots_alike(
    a: Seq<FunctionMetrics>,
    b: Seq<FunctionMetrics>,
    x: Seq<Hotspot>,
    y: Seq<Hotspot>,
)
    requires
        all_alike(a, b),
        are_hotspots(x, a),
        are_hotspots(y, b),
    ensures
        hotspots_alike(x, y),
{
    let p = hotspots_of(a);
    let q = hotspots_of(b);
    assert forall|i: int| 0 <= i < p.len() implies hotspot_alike(#[trigger] p[i], q[i]) by {
        assert(told_alike(a[i], b[i]));
    }
    assert forall|i: int, j: int|
        #![trigger p[i], p[j]]
        0 <= i < p.len() && 0 <= j < p.len() implies HotspotOrder.at_most(p[i], p[j])
        == HotspotOrder.at_most(q[i], q[j]) by {
        assert(hotspot_alike(p[i], q[i]));
        assert(hotspot_alike(p[j], q[j]));
    }
    let u = choose|sorted: Seq<Hotspot>| #[trigger]
        is_stable_sort(&HotspotOrder, p, sorted) && x == if sorted.len() > 5 {
            sorted.take(5)
        } else {
            sorted
        };
    let v = choose|sorted: Seq<Hotspot>| #[trigger]
        is_stable_sort(&HotspotOrder, q, sorted) && y == if sorted.len() > 5 {
            sorted.take(5)
        } else {
            sorted
        };
    let order = lemma_sorts_alike(&HotspotOrder, p, q, u, v);
    assert forall|i: int| 0 <= i < x.len() implies hotspot_alike(#[trigger] x[i], y[i]) by {
        assert(x[i] == u[i] && y[i] == v[i]);
        assert(u[i] == p[order[i]] && v[i] == q[order[i]]);
        assert(0 <= order[i] < p.len());
        assert(hotspot_alike(p[order[i]], q[order[i]]));
    }
}

/// Whether two dead functions read the same.
pub open spec fn dead_alike(a: DeadCodeFunction, b: DeadCodeFunction) -> bool {
    &&& a.id@ == b.id@
    &&& a.name@ == b.name@
    &&& a.file@ == b.file@
    &&& a.line == b.line
    &&& a.lines_of_code == b.lines_of_code
    &&& a.kind@ == b.kind@
    &&& a.safe_to_delete == b.safe_to_delete
}

/// Whether what is told of dead code reads the same.
pub open spec fn dead_code_alike(a: DeadCodeStats, b: DeadCodeStats) -> bool {
    &&& a.unreachable_functions == b.unreachable_functions
    &&& a.unreachable_private == b.unreachable_private
    &&& a.unreachable_export == b.unreachable_export
    &&& a.unreachable_loc == b.unreachable_loc
    &&& a.safe_to_delete == b.safe_to_delete
    &&& a.functions@.len() == b.functions@.len()
    &&& forall|i: int|
        0 <= i < a.functions@.len() ==> dead_alike(#[trigger] a.functions@[i], b.functions@[i])
}

/// Functions that are told alike are never reached alike.
proof fn lemma_never_reached_alike(a: Seq<FunctionMetrics>, b: Seq<FunctionMetrics>)
    requires
        all_alike(a, b),
    ensures
        all_alike(never_reached(a), never_reached(b)),
    decreases a.len(),
{
    if a.len() > 0 {
        let p = a.drop_last();
        let q = b.drop_last();
        assert forall|i: int| 0 <= i < p.len() implies told_alike(#[trigger] p[i], q[i]) by {
            assert(told_alike(a[i], b[i]));
        }
        lemma_never_reached_alike(p, q);
        assert(told_alike(a[a.len() - 1], b[b.len() - 1]));
    }
}

/// Functions that are told alike have the same totals.
proof fn lemma_totals_alike(a: Seq<FunctionMetrics>, b: Seq<FunctionMetrics>)
    requires
        all_alike(a, b),
    ensures
        total_lines(a) == total_lines(b),
        total_complexity(a) == total_complexity(b),
        forall|kind: Seq<char>| #[trigger] count_of_kind(a, kind) == count_of_kind(b, kind),
        known_coverage(a) == known_coverage(b),
        count_exposed(a) == count_exposed(b),
    decreases a.len(),
{
    if a.len() > 0 {
        let p = a.drop_last();
        let q = b.drop_last();
        assert forall|i: int| 0 <= i < p.len() implies told_alike(#[trigger] p[i], q[i]) by {
            assert(told_alike(a[i], b[i]));
        }
        lemma_totals_alike(p, q);
        assert(told_alike(a[a.len() - 1], b[b.len() - 1]));
        assert(risk_of(a.last()) == risk_of(b.last()));
        assert forall|kind: Seq<char>| #[trigger] count_of_kind(a, kind) == count_of_kind(
            b,
            kind,
        ) by {
            assert(count_of_kind(p, kind) == count_of_kind(q, kind));
        }
    } else {
        assert(known_coverage(a) =~= known_coverage(b));
    }
}

/// A part of some counts sums up to no more than a larger part.
proof fn lemma_sum_grows(counts: Seq<usize>, m: int, n: int)
    requires
        0 <= m <= n <= counts.len(),
    ensures
        sum_of(counts.take(m)) <= sum_of(counts.take(n)),
    decreases n - m,
{
    if m < n {
        lemma_sum_grows(counts, m, n - 1);
        assert(counts.take(n).drop_last() == counts.take(n - 1));
    }
}

/// Whether the histories of files, one after the other, tell the same.
pub open spec fn files_agree(a: Seq<GitCacheEntry>, b: Seq<GitCacheEntry>) -> bool {
    &&& a.len() == b.len()
    &&& forall|i: int| 0 <= i < a.len() ==> entry_agrees(#[trigger] a[i], b[i])
}

/// Histories that tell the same credit an author with the same.
proof fn lemma_contribution_same(
    a: Seq<GitCacheEntry>,
    b: Seq<GitCacheEntry>,
    author: Seq<char>,
)
    requires
        files_agree(a, b),
    ensures
        is_contributor(a, author) == is_contributor(b, author),
        contribution(a, author) == contribution(b, author),
    decreases a.len(),
{
    if a.len() > 0 {
        let p = a.drop_last();
        let q = b.drop_last();
        assert forall|i: int| 0 <= i < p.len() implies entry_agrees(#[trigger] p[i], q[i]) by {
            assert(entry_agrees(a[i], b[i]));
        }
        lemma_contribution_same(p, q, author);
        assert(entry_agrees(a[a.len() - 1], b[b.len() - 1]));
        lemma_changes_by_told(a.last().line_changes@, b.last().line_changes@, author);
        lemma_told_occur(a.last().line_changes@, b.last().line_changes@);
    }
}

/// Histories that tell the same have the same authors.
pub proof fn lemma_authors_same(a: Seq<GitCacheEntry>, b: Seq<GitCacheEntry>)
    requires
        files_agree(a, b),
    ensures
        authors_of(a) == authors_of(b),
    decreases a.len(),
{
    if a.len() > 0 {
        let p = a.drop_last();
        let q = b.drop_last();
        assert forall|i: int| 0 <= i < p.len() implies entry_agrees(#[trigger] p[i], q[i]) by {
            assert(entry_agrees(a[i], b[i]));
        }
        lemma_authors_same(p, q);
        assert(entry_agrees(a[a.len() - 1], b[b.len() - 1]));
    }
}

/// Contributions have only one bus factor.
proof fn lemma_bus_factor_same(
    x: nat,
    files: Seq<GitCacheEntry>,
    y: nat,
    files2: Seq<GitCacheEntry>,
)
    requires
        files_agree(files, files2),
        is_bus_factor_of(x, files),
        is_bus_factor_of(y, files2),
    ensures
        x == y,
{
    let a = choose|map: TextMap<usize>| #[trigger]
        tells_contributions(map, files) && is_bus_factor(x, map.values());
    let b = choose|map: TextMap<usize>| #[trigger]
        tells_contributions(map, files2) && is_bus_factor(y, map.values());
    lemma_same_contributions(a, files, b, files2);
    let u = choose|sorted: Seq<usize>| #[trigger]
        is_stable_sort(&LargestFirst, a.values(), sorted) && makes_up_half(sorted, x);
    let v = choose|sorted: Seq<usize>| #[trigger]
        is_stable_sort(&LargestFirst, b.values(), sorted) && makes_up_half(sorted, y);
    lemma_stable_sort_unique(&LargestFirst, a.values(), u, v);
    if x < y {
        lemma_sum_grows(u, x as int, y - 1);
    } else if y < x {
        lemma_sum_grows(u, y as int, x - 1);
    }
}

/// Two maps that tell what each author is credited with hold the same values.
proof fn lemma_same_contributions(
    a: TextMap<usize>,
    files: Seq<GitCacheEntry>,
    b: TextMap<usize>,
    files2: Seq<GitCacheEntry>,
)
    requires
        files_agree(files, files2),
        tells_contributions(a, files),
        tells_contributions(b, files2),
    ensures
        a.values() == b.values(),
{
    TextMap::lemma_view(&a);
    TextMap::lemma_view(&b);
    assert forall|k: Seq<char>| #[trigger] a.keys().contains(k) <==> b.keys().contains(k) by {
        lemma_contribution_same(files, files2, k);
        assert(a@.contains_key(k) <==> b@.contains_key(k));
    }
    lemma_ascending_unique(a.keys(), b.keys());
    assert forall|i: int| 0 <= i < a.keys().len() implies a.values()[i] == b.values()[i] by {
        let k = a.keys()[i];
        assert(a@.contains_key(k) && b@.contains_key(k));
        lemma_contribution_same(files, files2, k);
        assert(held_of(a@, k) == held_of(b@, k));
    }
    assert(a.values() =~= b.values());
}

/// Whether what is told of a project reads the same.
pub open spec fn project_alike(a: ProjectStats, b: ProjectStats) -> bool {
    &&& a.total_unique_authors == b.total_unique_authors
    &&& a.bus_factor == b.bus_factor
    &&& a.tech_debt_density == b.tech_debt_density
    &&& hotspots_alike(a.top_hotspots@, b.top_hotspots@)
    &&& dead_code_alike(a.dead_code, b.dead_code)
}

/// The same is told of a project whose functions are told alike.
proof fn lemma_projects_alike(
    x: ProjectStats,
    a: Seq<FunctionMetrics>,
    files: Seq<GitCacheEntry>,
    y: ProjectStats,
    b: Seq<FunctionMetrics>,
    files2: Seq<GitCacheEntry>,
    total_unique_authors: nat,
)
    requires
        all_alike(a, b),
        files_agree(files, files2),
        is_project(x, a, files, total_unique_authors),
        is_project(y, b, files2, total_unique_authors),
    ensures
        project_alike(x, y),
{
    lemma_bus_factor_same(x.bus_factor as nat, files, y.bus_factor as nat, files2);
    lemma_totals_alike(a, b);
    lemma_hotspots_alike(a, b, x.top_hotspots@, y.top_hotspots@);
    let p = never_reached(a);
    let q = never_reached(b);
    lemma_never_reached_alike(a, b);
    lemma_totals_alike(p, q);
    assert forall|i: int| 0 <= i < p.len() implies dead_alike(
        #[trigger] x.dead_code.functions@[i],
        y.dead_code.functions@[i],
    ) by {
        assert(told_alike(p[i], q[i]));
        assert(x.dead_code.functions@[i] == dead_function(p[i]));
        assert(y.dead_code.functions@[i] == dead_function(q[i]));
    }
}

/// Whether two summaries read the same.
pub open spec fn summary_alike(a: SummaryStats, b: SummaryStats) -> bool {
    &&& a.total_functions == b.total_functions
    &&& project_alike(a.project_stats, b.project_stats)
    &&& a.coverage == b.coverage
    &&& a.max_values == b.max_values
    &&& a.distributions == b.distributions
}

/// Whether two sets of metrics read the same.
pub open spec fn measured_alike(a: Measured, b: Measured) -> bool {
    &&& all_alike(a.functions@, b.functions@)
    &&& summary_alike(a.summary, b.summary)
}

impl<G, T, W, M, NC, NS, RK, CB> Numbers<G, T, W, M, NC, NS, RK, CB> where
    G: Fn(Ratio) -> Score,
    T: Fn(Score, Score) -> bool,
    W: Fn(Score, Ratio) -> Score,
    M: Fn(&Vec<Ratio>) -> Score,
    NC: Fn(u64, u64) -> Score,
    NS: Fn(Score, Score) -> Score,
    RK: Fn(NormalizedMetrics, Weights, u32) -> RiskNumbers,
    CB: Fn(NormalizedMetrics, Weights) -> Contributions,
 {
    /// Whether the same values always give the same result.
    pub open spec fn are_functional(self) -> bool {
        &&& is_gap_functional(self.gap)
        &&& is_thrice_functional(self.thrice)
        &&& is_weigh_functional(self.weigh)
        &&& is_mean_functional(self.mean)
        &&& self.arithmetic.is_functional()
    }
}

/// The values at the 95th percentile are the same for functions that are told
/// alike.
proof fn lemma_distributions_same<NC, NS, RK, CB>(
    arithmetic: Arithmetic<NC, NS, RK, CB>,
    d: Distributions,
    scored: Seq<FunctionMetrics>,
    c: ScoringContext,
    d2: Distributions,
    scored2: Seq<FunctionMetrics>,
    c2: ScoringContext,
) where
    NC: Fn(u64, u64) -> Score,
    NS: Fn(Score, Score) -> Score,
    RK: Fn(NormalizedMetrics, Weights, u32) -> RiskNumbers,
    CB: Fn(NormalizedMetrics, Weights) -> Contributions,

    requires
        all_alike(scored, scored2),
        c.cog_vals@ == c2.cog_vals@,
        c.churn_vals@ == c2.churn_vals@,
        arithmetic.tells(d, scored, c),
        arithmetic.tells(d2, scored2, c2),
    ensures
        d == d2,
{
    lemma_values_alike(scored, scored2);
    let place = percentile_place(scored.len(), 95);
    let u = choose|sorted: Seq<Score>| #[trigger]
        is_stable_sort(&ScoreOrder, risk_values(scored), sorted) && d.risk_p95 == sorted[place];
    let v = choose|sorted: Seq<Score>| #[trigger]
        is_stable_sort(&ScoreOrder, risk_values(scored2), sorted) && d2.risk_p95 == sorted[place];
    lemma_stable_sort_unique(&ScoreOrder, risk_values(scored), u, v);
}

/// The same is told of the coverage of a project whose functions are told alike.
proof fn lemma_project_coverage_same<M: Fn(&Vec<Ratio>) -> Score>(
    x: Option<ProjectCoverage>,
    a: Seq<FunctionMetrics>,
    y: Option<ProjectCoverage>,
    b: Seq<FunctionMetrics>,
    mean: M,
)
    requires
        is_mean_functional(mean),
        all_alike(a, b),
        is_project_coverage(x, a, mean),
        is_project_coverage(y, b, mean),
    ensures
        x == y,
{
    lemma_totals_alike(a, b);
    if x is Some {
        assert(is_mean(mean, known_coverage(a), x->0.project_line_coverage));
        assert(is_mean(mean, known_coverage(a), y->0.project_line_coverage));
    }
}

/// Functions that are told alike go through all stages alike.
proof fn lemma_stages_alike<G, T, W, M, NC, NS, RK, CB>(
    s: Stages,
    c: ScoringContext,
    found: Seq<FunctionMetrics>,
    coverage: Option<CoverageIndex>,
    s2: Stages,
    c2: ScoringContext,
    found2: Seq<FunctionMetrics>,
    coverage2: Option<CoverageIndex>,
    key: SortKey,
    numbers: Numbers<G, T, W, M, NC, NS, RK, CB>,
) where
    G: Fn(Ratio) -> Score,
    T: Fn(Score, Score) -> bool,
    W: Fn(Score, Ratio) -> Score,
    M: Fn(&Vec<Ratio>) -> Score,
    NC: Fn(u64, u64) -> Score,
    NS: Fn(Score, Score) -> Score,
    RK: Fn(NormalizedMetrics, Weights, u32) -> RiskNumbers,
    CB: Fn(NormalizedMetrics, Weights) -> Contributions,

    requires
        numbers.are_functional(),
        all_alike(found, found2),
        indexes_alike(coverage, coverage2),
        are_covered(s.covered, found, coverage, numbers.gap),
        are_coupled(s.coupled, s.covered),
        is_context(c, s.coupled, numbers.thrice),
        numbers.arithmetic.is_report(s.labelled, s.coupled, s.scored, c.caps),
        are_weighed(s.weighed, s.labelled, numbers.weigh),
        is_stable_sort(&key, s.weighed, s.sorted),
        are_covered(s2.covered, found2, coverage2, numbers.gap),
        are_coupled(s2.coupled, s2.covered),
        is_context(c2, s2.coupled, numbers.thrice),
        numbers.arithmetic.is_report(s2.labelled, s2.coupled, s2.scored, c2.caps),
        are_weighed(s2.weighed, s2.labelled, numbers.weigh),
        is_stable_sort(&key, s2.weighed, s2.sorted),
    ensures
        all_alike(s.scored, s2.scored),
        all_alike(s.weighed, s2.weighed),
        all_alike(s.sorted, s2.sorted),
        c.max_values == c2.max_values,
        c.cog_vals@ == c2.cog_vals@,
        c.churn_vals@ == c2.churn_vals@,
{
    lemma_covered_alike(
        s.covered,
        found,
        coverage,
        s2.covered,
        found2,
        coverage2,
        numbers.gap,
    );
    lemma_coupled_alike(s.coupled, s.covered, s2.coupled, s2.covered);
    lemma_contexts_alike(c, s.coupled, c2, s2.coupled, numbers.thrice);
    lemma_labelled_alike(
        numbers.arithmetic,
        c.caps,
        s.labelled,
        s.coupled,
        s.scored,
        s2.labelled,
        s2.coupled,
        s2.scored,
    );
    lemma_weighed_alike(s.weighed, s.labelled, s2.weighed, s2.labelled, numbers.weigh);
    lemma_sorted_alike(key, s.weighed, s2.weighed, s.sorted, s2.sorted);
}

/// A limit keeps functions that are told alike.
proof fn lemma_limited_alike(
    a: Seq<FunctionMetrics>,
    b: Seq<FunctionMetrics>,
    limit: Option<usize>,
)
    requires
        all_alike(a, b),
    ensures
        all_alike(limited(a, limit), limited(b, limit)),
{
    let x = limited(a, limit);
    let y = limited(b, limit);
    assert forall|i: int| 0 <= i < x.len() implies told_alike(#[trigger] x[i], y[i]) by {
        assert(told_alike(a[i], b[i]));
    }
}

/// The same input always gives the same metrics: where the same is told of the
/// functions that were found, of their coverage and of the history of the files, the
/// same metrics are told, as long as the arithmetic gives the same results on the same numbers.
pub proof fn lemma_metrics_are_deterministic<G, T, W, M, NC, NS, RK, CB>(
    m: Measured,
    found: Seq<FunctionMetrics>,
    coverage: Option<CoverageIndex>,
    files: Seq<GitCacheEntry>,
    m2: Measured,
    found2: Seq<FunctionMetrics>,
    coverage2: Option<CoverageIndex>,
    files2: Seq<GitCacheEntry>,
    total_unique_authors: nat,
    sort_by: Seq<char>,
    limit: Option<usize>,
    numbers: Numbers<G, T, W, M, NC, NS, RK, CB>,
) where
    G: Fn(Ratio) -> Score,
    T: Fn(Score, Score) -> bool,
    W: Fn(Score, Ratio) -> Score,
    M: Fn(&Vec<Ratio>) -> Score,
    NC: Fn(u64, u64) -> Score,
    NS: Fn(Score, Score) -> Score,
    RK: Fn(NormalizedMetrics, Weights, u32) -> RiskNumbers,
    CB: Fn(NormalizedMetrics, Weights) -> Contributions,

    requires
        numbers.are_functional(),
        all_alike(found, found2),
        indexes_alike(coverage, coverage2),
        files_agree(files, files2),
        is_measured(
            m,
            found,
            coverage,
            files,
            total_unique_authors,
            sort_by,
            limit,
            numbers,
        ),
        is_measured(
            m2,
            found2,
            coverage2,
            files2,
            total_unique_authors,
            sort_by,
            limit,
            numbers,
        ),
    ensures
        measured_alike(m, m2),
{
    if found.len() == 0 {
        lemma_projects_alike(
            m.summary.project_stats,
            found,
            files,
            m2.summary.project_stats,
            found2,
            files2,
            total_unique_authors,
        );
    } else {
        let (s, c) = choose|s: Stages, c: ScoringContext| #[trigger]
            went_through(
                s,
                c,
                m,
                found,
                coverage,
                files,
                total_unique_authors,
                sort_by,
                limit,
                numbers,
            );
        let (s2, c2) = choose|s: Stages, c: ScoringContext| #[trigger]
            went_through(
                s,
                c,
                m2,
                found2,
                coverage2,
                files2,
                total_unique_authors,
                sort_by,
                limit,
                numbers,
            );
        lemma_stages_alike(
            s,
            c,
            found,
            coverage,
            s2,
            c2,
            found2,
            coverage2,
            effective_key(sort_by),
            numbers,
        );
        lemma_limited_alike(s.sorted, s2.sorted, limit);
        lemma_projects_alike(
            m.summary.project_stats,
            s.weighed,
            files,
            m2.summary.project_stats,
            s2.weighed,
            files2,
            total_unique_authors,
        );
        lemma_distributions_same(
            numbers.arithmetic,
            m.summary.distributions->0,
            s.scored,
            c,
            m2.summary.distributions->0,
            s2.scored,
            c2,
        );
        lemma_project_coverage_same(
            m.summary.coverage,
            m.functions@,
            m2.summary.coverage,
            m2.functions@,
            numbers.mean,
        );
    }
}

} // verus!
