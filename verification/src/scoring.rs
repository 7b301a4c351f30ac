//! Normalizes metrics, and derives risk and ranks from them.

use crate::metrics::{
    Distributions, FunctionMetrics, MaxValues, NormalizedMetrics, PercentileMetrics, RiskMetrics,
    ScoringPolicy, Thresholds, Weights,
};
use crate::order::{
    how_many, is_stable_sort, lemma_sorted_count, lemma_stable_sort_keeps, places_where,
    stable_sort, Ranking,
};
use crate::score::{CountOrder, Ratio, Score, ScoreOrder};
use vstd::prelude::*;

verus! {

/// The score one.
pub const ONE_BITS: u64 = 0x3ff0_0000_0000_0000;

/// Whether this is how risk is scored.
pub open spec fn is_default_policy(policy: ScoringPolicy) -> bool {
    &&& policy.weights == default_weights()
    &&& policy.thresholds == default_thresholds()
    &&& policy.description@ == "Composite risk score based on complexity, churn, and team metrics."@
}

/// How risk is scored: the weights of the metrics in hundredths, and the
/// percentiles from which each level is given.
pub fn default_scoring_policy() -> (policy: ScoringPolicy)
    ensures
        is_default_policy(policy),
{
    ScoringPolicy {
        weights: weights(),
        thresholds: thresholds(),
        description: "Composite risk score based on complexity, churn, and team metrics.".to_string(),
    }
}

/// The weights of the metrics, in hundredths.
pub open spec fn default_weights() -> Weights {
    Weights {
        cognitive: 35,
        cyclomatic: 15,
        churn: 30,
        churn_recent: 0,
        fan_in: 0,
        loc: 10,
        authors: 10,
        coverage_gap: 0,
    }
}

/// The weights of the metrics.
pub fn weights() -> (w: Weights)
    ensures
        w == default_weights(),
{
    Weights {
        cognitive: 35,
        cyclomatic: 15,
        churn: 30,
        churn_recent: 0,
        fan_in: 0,
        loc: 10,
        authors: 10,
        coverage_gap: 0,
    }
}

/// The percentiles from which each level is given.
pub open spec fn default_thresholds() -> Thresholds {
    Thresholds { critical: 95, high: 80, medium: 50 }
}

/// The percentiles from which each level is given.
pub fn thresholds() -> (t: Thresholds)
    ensures
        t == default_thresholds(),
{
    Thresholds { critical: 95, high: 80, medium: 50 }
}

/// The weights make up the whole.
pub proof fn lemma_weights_make_up_the_whole()
    ensures
        ({
            let w = default_weights();
            w.cognitive + w.cyclomatic + w.churn + w.churn_recent + w.fan_in + w.loc + w.authors
                + w.coverage_gap == 100
        }),
{
}

/// The place of a percentile in a sorted list of `n` values.
pub open spec fn percentile_place(n: nat, percent: nat) -> int {
    if n * percent / 100 < n {
        (n * percent / 100) as int
    } else {
        n - 1
    }
}

/// Finds the place of a percentile below the hundredth.
pub fn percentile_index(n: usize, percent: u32) -> (i: usize)
    requires
        n > 0,
        percent < 100,
    ensures
        i == percentile_place(n as nat, percent as nat),
        i < n,
{
    assert(n as u128 * percent as u128 <= 0xffff_ffff_ffff_ffff * 100) by (nonlinear_arith)
        requires
            n <= 0xffff_ffff_ffff_ffff,
            percent < 100,
    ;
    let place: u128 = n as u128 * percent as u128 / 100;
    assert(n as u128 * percent as u128 / 100 < n) by (nonlinear_arith)
        requires
            n > 0,
            percent < 100,
    ;
    place as usize
}

/// What values are measured by: the largest, unless it is more than three times
/// what 95 of 100 stay below; then what 99 of 100 stay below. At least one.
pub open spec fn cap_of(sorted: Seq<u64>) -> nat {
    let n = sorted.len();
    let top = sorted.last();
    let chosen = if top > 3 * sorted[percentile_place(n, 95)] {
        sorted[percentile_place(n, 99)]
    } else {
        top
    };
    if chosen < 1 {
        1
    } else {
        chosen as nat
    }
}

/// Sorts values, and finds what they are measured by.
fn count_cap(values: Vec<u64>) -> (r: (Vec<u64>, u64))
    requires
        values.len() > 0,
    ensures
        is_stable_sort(&CountOrder, values@, r.0@),
        r.0.len() == values.len(),
        r.1 == cap_of(r.0@),
{
    let n: usize = values.len();
    proof {
        assert forall|out: Seq<u64>| is_stable_sort(&CountOrder, values@, out) implies out.len()
            == values.len() by {
            lemma_stable_sort_keeps(&CountOrder, values@, out, 0);
        }
    }
    let sorted = stable_sort(&CountOrder, values);
    let p95: u64 = sorted[percentile_index(n, 95)];
    let p99: u64 = sorted[percentile_index(n, 99)];
    let top: u64 = sorted[n - 1];
    let chosen: u64 = if top as u128 > 3 * p95 as u128 {
        p99
    } else {
        top
    };
    let cap: u64 = if chosen < 1 {
        1
    } else {
        chosen
    };
    (sorted, cap)
}

/// The score one.
pub open spec fn one() -> Score {
    Score { bits: ONE_BITS }
}

/// The larger of two scores.
pub open spec fn larger(a: Score, b: Score) -> Score {
    if a.key() <= b.key() {
        b
    } else {
        a
    }
}

/// Whether this is what scores are measured by, given the largest and how to tell
/// that a score is more than three times another.
pub open spec fn is_score_cap<T: Fn(Score, Score) -> bool>(
    cap: Score,
    sorted: Seq<Score>,
    top: Score,
    thrice: T,
) -> bool {
    let n = sorted.len();
    exists|beyond: bool| #[trigger]
        call_ensures(thrice, (top, sorted[percentile_place(n, 95)]), beyond) && cap == larger(
            if beyond {
                sorted[percentile_place(n, 99)]
            } else {
                top
            },
            one(),
        )
}

fn score_cap<T: Fn(Score, Score) -> bool>(sorted: &Vec<Score>, top: Score, thrice: &T) -> (cap:
    Score)
    requires
        sorted.len() > 0,
        forall|a: Score, b: Score| call_requires(thrice, (a, b)),
    ensures
        is_score_cap(cap, sorted@, top, *thrice),
{
    let n: usize = sorted.len();
    let p95 = sorted[percentile_index(n, 95)];
    let p99 = sorted[percentile_index(n, 99)];
    let beyond = thrice(top, p95);
    let chosen = if beyond {
        p99
    } else {
        top
    };
    assert(call_ensures(thrice, (top, sorted@[percentile_place(n as nat, 95)]), beyond));
    chosen.larger(Score { bits: ONE_BITS })
}

fn sort_scores(values: Vec<Score>) -> (sorted: Vec<Score>)
    ensures
        is_stable_sort(&ScoreOrder, values@, sorted@),
        sorted.len() == values.len(),
{
    proof {
        assert forall|out: Seq<Score>| is_stable_sort(&ScoreOrder, values@, out) implies out.len()
            == values.len() by {
            lemma_stable_sort_keeps(&ScoreOrder, values@, out, Score { bits: 0 });
        }
    }
    stable_sort(&ScoreOrder, values)
}

/// The cognitive complexities of functions.
pub open spec fn cognitive_values(functions: Seq<FunctionMetrics>) -> Seq<u64> {
    functions.map_values(|f: FunctionMetrics| f.cognitive_complexity as u64)
}

/// The cyclomatic complexities of functions.
pub open spec fn cyclomatic_values(functions: Seq<FunctionMetrics>) -> Seq<u64> {
    functions.map_values(|f: FunctionMetrics| f.cyclomatic_complexity as u64)
}

/// The lengths of functions.
pub open spec fn loc_values(functions: Seq<FunctionMetrics>) -> Seq<u64> {
    functions.map_values(|f: FunctionMetrics| f.lines_of_code as u64)
}

/// The numbers of authors of functions.
pub open spec fn author_values(functions: Seq<FunctionMetrics>) -> Seq<u64> {
    functions.map_values(|f: FunctionMetrics| f.authors_count as u64)
}

/// How many call each function.
pub open spec fn fan_in_values(functions: Seq<FunctionMetrics>) -> Seq<u64> {
    functions.map_values(|f: FunctionMetrics| f.coupling.fan_in as u64)
}

/// The churn scores of functions.
pub open spec fn churn_values(functions: Seq<FunctionMetrics>) -> Seq<Score> {
    functions.map_values(|f: FunctionMetrics| f.churn_score)
}

/// The churn scores of the last days.
pub open spec fn recent_values(functions: Seq<FunctionMetrics>) -> Seq<Score> {
    functions.map_values(|f: FunctionMetrics| f.churn.windows.d7.score)
}

/// The coverage gap of a function, none where its coverage is not known.
pub open spec fn gap_of(f: FunctionMetrics) -> Score {
    match f.coverage {
        Some(coverage) => coverage.risk_coverage_gap,
        None => Score { bits: 0 },
    }
}

/// The coverage gaps of functions.
pub open spec fn gap_values(functions: Seq<FunctionMetrics>) -> Seq<Score> {
    functions.map_values(|f: FunctionMetrics| gap_of(f))
}

/// Whether a number is the largest of some.
pub open spec fn is_largest(m: u32, values: Seq<u64>) -> bool {
    values.contains(m as u64) && forall|i: int|
        0 <= i < values.len() ==> #[trigger] values[i] <= m
}

/// What each metric is measured by.
#[derive(Clone, Copy, Debug, PartialEq, Eq, Structural)]
pub struct NormalizationCaps {
    pub cognitive: u64,
    pub churn: Score,
    pub churn_recent: Score,
    pub loc: u64,
    pub cyclomatic: u64,
    pub authors: u64,
    pub fan_in: u64,
    pub coverage_gap: Score,
}

/// What the scores of all functions rest on.
pub struct ScoringContext {
    pub max_values: MaxValues,
    pub caps: NormalizationCaps,
    pub cog_vals: Vec<u64>,
    pub churn_vals: Vec<Score>,
    pub p95_idx: usize,
}

/// Whether a number is what values are measured by.
pub open spec fn is_cap(cap: u64, values: Seq<u64>) -> bool {
    exists|sorted: Seq<u64>| #[trigger]
        is_stable_sort(&CountOrder, values, sorted) && cap == cap_of(sorted)
}

/// Whether a score is what some scores are measured by.
pub open spec fn is_cap_of_scores<T: Fn(Score, Score) -> bool>(
    cap: Score,
    values: Seq<Score>,
    thrice: T,
) -> bool {
    exists|sorted: Seq<Score>| #[trigger]
        is_stable_sort(&ScoreOrder, values, sorted) && is_score_cap(
            cap,
            sorted,
            sorted.last(),
            thrice,
        )
}

/// Whether this is what the scores of some functions rest on.
pub open spec fn is_context<T: Fn(Score, Score) -> bool>(
    c: ScoringContext,
    functions: Seq<FunctionMetrics>,
    thrice: T,
) -> bool {
    &&& is_largest(c.max_values.cyclomatic, cyclomatic_values(functions))
    &&& is_largest(c.max_values.cognitive, cognitive_values(functions))
    &&& is_largest(c.max_values.loc, loc_values(functions))
    &&& c.max_values.churn == larger(Score { bits: 0 }, c.churn_vals@.last())
    &&& is_stable_sort(&CountOrder, cognitive_values(functions), c.cog_vals@)
    &&& is_stable_sort(&ScoreOrder, churn_values(functions), c.churn_vals@)
    &&& c.cog_vals@.len() == functions.len()
    &&& c.churn_vals@.len() == functions.len()
    &&& c.p95_idx == percentile_place(functions.len(), 95)
    &&& c.caps.cognitive == cap_of(c.cog_vals@)
    &&& is_score_cap(c.caps.churn, c.churn_vals@, c.max_values.churn, thrice)
    &&& is_cap_of_scores(c.caps.churn_recent, recent_values(functions), thrice)
    &&& is_cap(c.caps.loc, loc_values(functions))
    &&& is_cap(c.caps.cyclomatic, cyclomatic_values(functions))
    &&& is_cap(c.caps.authors, author_values(functions))
    &&& is_cap(c.caps.fan_in, fan_in_values(functions))
    &&& is_cap_of_scores(c.caps.coverage_gap, gap_values(functions), thrice)
}

/// What the scores of functions rest on holds the values of all of them: sorted from
/// the smallest up, with the largest at the end, and the place of the 95th percentile
/// within.
pub proof fn lemma_context_spans_the_values<T: Fn(Score, Score) -> bool>(
    c: ScoringContext,
    functions: Seq<FunctionMetrics>,
    thrice: T,
)
    requires
        functions.len() > 0,
        is_context(c, functions, thrice),
    ensures
        c.cog_vals@.len() == functions.len(),
        c.churn_vals@.len() == functions.len(),
        forall|i: int, j: int|
            #![trigger c.cog_vals@[i], c.cog_vals@[j]]
            0 <= i < j < functions.len() ==> c.cog_vals@[i] <= c.cog_vals@[j],
        forall|i: int, j: int|
            #![trigger c.churn_vals@[i], c.churn_vals@[j]]
            0 <= i < j < functions.len() ==> c.churn_vals@[i].key() <= c.churn_vals@[j].key(),
        c.max_values.cognitive == c.cog_vals@.last(),
        c.p95_idx == if functions.len() * 95 / 100 < functions.len() {
            functions.len() * 95 / 100
        } else {
            (functions.len() - 1) as nat
        },
        c.p95_idx < functions.len(),
{
    let values = cognitive_values(functions);
    assert(values.len() == functions.len());
    lemma_last_is_largest(values, c.cog_vals@);
    let k = choose|k: int| 0 <= k < values.len() && values[k] == c.max_values.cognitive as u64;
    let j = choose|j: int| 0 <= j < values.len() && values[j] == c.cog_vals@.last();
    assert(values[k] <= c.cog_vals@.last() && values[j] <= c.max_values.cognitive);
    assert forall|i: int, j: int|
        #![trigger c.cog_vals@[i], c.cog_vals@[j]]
        0 <= i < j < functions.len() implies c.cog_vals@[i] <= c.cog_vals@[j] by {
        assert(CountOrder.at_most(c.cog_vals@[i], c.cog_vals@[j]));
    }
    assert forall|i: int, j: int|
        #![trigger c.churn_vals@[i], c.churn_vals@[j]]
        0 <= i < j < functions.len() implies c.churn_vals@[i].key() <= c.churn_vals@[j].key() by {
        assert(ScoreOrder.at_most(c.churn_vals@[i], c.churn_vals@[j]));
    }
}

/// The last of a sorted list is the largest of the values that were sorted.
proof fn lemma_last_is_largest(values: Seq<u64>, sorted: Seq<u64>)
    requires
        values.len() > 0,
        is_stable_sort(&CountOrder, values, sorted),
    ensures
        sorted.len() == values.len(),
        values.contains(sorted.last()),
        forall|i: int| 0 <= i < values.len() ==> #[trigger] values[i] <= sorted.last(),
{
    lemma_stable_sort_keeps(&CountOrder, values, sorted, sorted.last());
    assert(sorted.contains(sorted.last()));
    assert forall|i: int| 0 <= i < values.len() implies #[trigger] values[i] <= sorted.last() by {
        lemma_stable_sort_keeps(&CountOrder, values, sorted, values[i]);
        assert(values.contains(values[i]));
        let k = choose|k: int| 0 <= k < sorted.len() && sorted[k] == values[i];
        if k < sorted.len() - 1 {
            assert(CountOrder.at_most(sorted[k], sorted[sorted.len() - 1]));
        }
    }
}

/// The values of each metric.
struct MetricValues {
    cognitive: Vec<u64>,
    cyclomatic: Vec<u64>,
    loc: Vec<u64>,
    authors: Vec<u64>,
    fan_in: Vec<u64>,
    churn: Vec<Score>,
    recent: Vec<Score>,
    gap: Vec<Score>,
}

fn gather_values(functions: &Vec<FunctionMetrics>) -> (v: MetricValues)
    ensures
        v.cognitive@ == cognitive_values(functions@),
        v.cyclomatic@ == cyclomatic_values(functions@),
        v.loc@ == loc_values(functions@),
        v.authors@ == author_values(functions@),
        v.fan_in@ == fan_in_values(functions@),
        v.churn@ == churn_values(functions@),
        v.recent@ == recent_values(functions@),
        v.gap@ == gap_values(functions@),
{
    let mut v = MetricValues {
        cognitive: Vec::new(),
        cyclomatic: Vec::new(),
        loc: Vec::new(),
        authors: Vec::new(),
        fan_in: Vec::new(),
        churn: Vec::new(),
        recent: Vec::new(),
        gap: Vec::new(),
    };
    for i in 0..functions.len()
        invariant
            v.cognitive@ == cognitive_values(functions@.take(i as int)),
            v.cyclomatic@ == cyclomatic_values(functions@.take(i as int)),
            v.loc@ == loc_values(functions@.take(i as int)),
            v.authors@ == author_values(functions@.take(i as int)),
            v.fan_in@ == fan_in_values(functions@.take(i as int)),
            v.churn@ == churn_values(functions@.take(i as int)),
            v.recent@ == recent_values(functions@.take(i as int)),
            v.gap@ == gap_values(functions@.take(i as int)),
    {
        let f = &functions[i];
        v.cognitive.push(f.cognitive_complexity as u64);
        v.cyclomatic.push(f.cyclomatic_complexity as u64);
        v.loc.push(f.lines_of_code as u64);
        v.authors.push(f.authors_count as u64);
        v.fan_in.push(f.coupling.fan_in as u64);
        v.churn.push(f.churn_score);
        v.recent.push(f.churn.windows.d7.score);
        v.gap.push(
            match &f.coverage {
                Some(coverage) => coverage.risk_coverage_gap,
                None => Score::zero(),
            },
        );
        proof {
            let a = functions@.take(i as int);
            let b = functions@.take(i + 1);
            assert(b == a.push(functions@[i as int]));
            assert(cognitive_values(b) =~= v.cognitive@);
            assert(cyclomatic_values(b) =~= v.cyclomatic@);
            assert(loc_values(b) =~= v.loc@);
            assert(author_values(b) =~= v.authors@);
            assert(fan_in_values(b) =~= v.fan_in@);
            assert(churn_values(b) =~= v.churn@);
            assert(recent_values(b) =~= v.recent@);
            assert(gap_values(b) =~= v.gap@);
        }
    }
    assert(functions@.take(functions.len() as int) == functions@);
    v
}

/// Finds what the scores of some functions rest on. Whether a score is more than
/// three times another is told by `thrice`.
pub fn compute_scoring_context<T: Fn(Score, Score) -> bool>(
    functions: &Vec<FunctionMetrics>,
    thrice: &T,
) -> (c: ScoringContext)
    requires
        functions.len() > 0,
        forall|a: Score, b: Score| call_requires(thrice, (a, b)),
    ensures
        is_context(c, functions@, *thrice),
{
    let n: usize = functions.len();
    let v = gather_values(functions);
    let ghost all = functions@;
    let (cog_vals, cap_cognitive) = count_cap(v.cognitive);
    let (cyc_vals, cap_cyclomatic) = count_cap(v.cyclomatic);
    let (loc_vals, cap_loc) = count_cap(v.loc);
    let (_auth_vals, cap_authors) = count_cap(v.authors);
    let (_fan_in_vals, cap_fan_in) = count_cap(v.fan_in);
    let churn_vals = sort_scores(v.churn);
    let recent_vals = sort_scores(v.recent);
    let gap_vals = sort_scores(v.gap);
    proof {
        lemma_last_is_largest(cognitive_values(all), cog_vals@);
        lemma_last_is_largest(cyclomatic_values(all), cyc_vals@);
        lemma_last_is_largest(loc_values(all), loc_vals@);
        lemma_u32_values(all);
    }
    let max_values = MaxValues {
        cyclomatic: cyc_vals[n - 1] as u32,
        cognitive: cog_vals[n - 1] as u32,
        churn: Score::zero().larger(churn_vals[n - 1]),
        loc: loc_vals[n - 1] as u32,
    };
    let caps = NormalizationCaps {
        cognitive: cap_cognitive,
        churn: score_cap(&churn_vals, max_values.churn, thrice),
        churn_recent: score_cap(&recent_vals, recent_vals[n - 1], thrice),
        loc: cap_loc,
        cyclomatic: cap_cyclomatic,
        authors: cap_authors,
        fan_in: cap_fan_in,
        coverage_gap: score_cap(&gap_vals, gap_vals[n - 1], thrice),
    };
    proof {
        assert(is_stable_sort(&ScoreOrder, recent_values(all), recent_vals@));
        assert(is_stable_sort(&ScoreOrder, gap_values(all), gap_vals@));
        assert(is_stable_sort(&CountOrder, loc_values(all), loc_vals@));
        assert(is_stable_sort(&CountOrder, cyclomatic_values(all), cyc_vals@));
        assert(is_stable_sort(&CountOrder, author_values(all), _auth_vals@));
        assert(is_stable_sort(&CountOrder, fan_in_values(all), _fan_in_vals@));
    }
    ScoringContext {
        max_values,
        caps,
        cog_vals,
        churn_vals,
        p95_idx: percentile_index(n, 95),
    }
}

/// Counts of 32 bits stay counts of 32 bits.
proof fn lemma_u32_values(functions: Seq<FunctionMetrics>)
    ensures
        forall|x: u64| #[trigger] cognitive_values(functions).contains(x) ==> x <= u32::MAX,
        forall|x: u64| #[trigger] cyclomatic_values(functions).contains(x) ==> x <= u32::MAX,
        forall|x: u64| #[trigger] loc_values(functions).contains(x) ==> x <= u32::MAX,
{
}

/// The three numbers of a risk.
#[derive(Clone, Copy, Debug, PartialEq, Eq, Structural)]
pub struct RiskNumbers {
    pub base_score: Score,
    pub nesting_penalty: Score,
    pub final_score: Score,
}

/// What each metric adds to the base score.
#[derive(Clone, Copy, Debug, PartialEq, Eq, Structural)]
pub struct Contributions {
    pub cognitive: Score,
    pub churn: Score,
    pub churn_recent: Score,
    pub fan_in: Score,
    pub cyclomatic: Score,
    pub loc: Score,
    pub authors: Score,
    pub coverage_gap: Score,
}

/// The arithmetic of scores: scaling a count or a score by what it is measured by,
/// the risk of a function from its normalized metrics and its nesting depth, and
/// what each metric adds to it.
pub struct Arithmetic<NC, NS, RK, CB> where
    NC: Fn(u64, u64) -> Score,
    NS: Fn(Score, Score) -> Score,
    RK: Fn(NormalizedMetrics, Weights, u32) -> RiskNumbers,
    CB: Fn(NormalizedMetrics, Weights) -> Contributions,
 {
    pub normalize_count: NC,
    pub normalize_score: NS,
    pub risk: RK,
    pub contributions: CB,
}

impl<NC, NS, RK, CB> Arithmetic<NC, NS, RK, CB> where
    NC: Fn(u64, u64) -> Score,
    NS: Fn(Score, Score) -> Score,
    RK: Fn(NormalizedMetrics, Weights, u32) -> RiskNumbers,
    CB: Fn(NormalizedMetrics, Weights) -> Contributions,
 {
    /// Whether it can be done on all values.
    pub open spec fn is_total(self) -> bool {
        &&& forall|a: u64, b: u64| call_requires(self.normalize_count, (a, b))
        &&& forall|a: Score, b: Score| call_requires(self.normalize_score, (a, b))
        &&& forall|n: NormalizedMetrics, w: Weights, d: u32| call_requires(self.risk, (n, w, d))
        &&& forall|n: NormalizedMetrics, w: Weights| call_requires(self.contributions, (n, w))
    }

    /// Whether these are the normalized metrics of a function.
    pub open spec fn is_normalized(
        self,
        n: NormalizedMetrics,
        f: FunctionMetrics,
        caps: NormalizationCaps,
    ) -> bool {
        &&& call_ensures(
            self.normalize_count,
            (f.cyclomatic_complexity as u64, caps.cyclomatic),
            n.cyclomatic,
        )
        &&& call_ensures(self.normalize_score, (f.churn_score, caps.churn), n.churn)
        &&& call_ensures(
            self.normalize_score,
            (f.churn.windows.d7.score, caps.churn_recent),
            n.churn_recent,
        )
        &&& call_ensures(
            self.normalize_count,
            (f.cognitive_complexity as u64, caps.cognitive),
            n.cognitive,
        )
        &&& call_ensures(
            self.normalize_count,
            (f.coupling.fan_in as u64, caps.fan_in),
            n.fan_in,
        )
        &&& call_ensures(self.normalize_count, (f.lines_of_code as u64, caps.loc), n.loc)
        &&& call_ensures(self.normalize_count, (f.authors_count as u64, caps.authors), n.authors)
        &&& match (f.coverage, n.coverage_gap) {
            (Some(coverage), Some(gap)) => call_ensures(
                self.normalize_score,
                (coverage.risk_coverage_gap, caps.coverage_gap),
                gap,
            ),
            (None, None) => true,
            _ => false,
        }
    }

    /// Whether a function is told with its normalized metrics and its risk, but not
    /// yet with labels.
    pub open spec fn is_scored(
        self,
        after: FunctionMetrics,
        before: FunctionMetrics,
        caps: NormalizationCaps,
    ) -> bool {
        &&& after == (FunctionMetrics { normalized: after.normalized, risk: after.risk, ..before })
        &&& after.normalized is Some
        &&& self.is_normalized(after.normalized->0, before, caps)
        &&& after.risk is Some
        &&& call_ensures(
            self.risk,
            (after.normalized->0, default_weights(), before.nesting_depth),
            (RiskNumbers {
                base_score: after.risk->0.base_score,
                nesting_penalty: after.risk->0.nesting_penalty,
                final_score: after.risk->0.final_score,
            }),
        )
        &&& after.risk->0.level@.len() == 0
        &&& after.risk->0.primary_driver@.len() == 0
    }

    /// Tells a function with its normalized metrics and its risk.
    pub fn apply_normalized_risk(&self, function: &mut FunctionMetrics, caps: &NormalizationCaps)
        requires
            self.is_total(),
        ensures
            self.is_scored(*final(function), *old(function), *caps),
    {
        let normalized = NormalizedMetrics {
            cyclomatic: (self.normalize_count)(
                function.cyclomatic_complexity as u64,
                caps.cyclomatic,
            ),
            churn: (self.normalize_score)(function.churn_score, caps.churn),
            churn_recent: (self.normalize_score)(
                function.churn.windows.d7.score,
                caps.churn_recent,
            ),
            cognitive: (self.normalize_count)(
                function.cognitive_complexity as u64,
                caps.cognitive,
            ),
            fan_in: (self.normalize_count)(function.coupling.fan_in as u64, caps.fan_in),
            loc: (self.normalize_count)(function.lines_of_code as u64, caps.loc),
            authors: (self.normalize_count)(function.authors_count as u64, caps.authors),
            coverage_gap: match &function.coverage {
                Some(coverage) => Some(
                    (self.normalize_score)(coverage.risk_coverage_gap, caps.coverage_gap),
                ),
                None => None,
            },
        };
        let numbers = (self.risk)(normalized, weights(), function.nesting_depth);
        function.normalized = Some(normalized);
        function.risk = Some(
            RiskMetrics {
                base_score: numbers.base_score,
                nesting_penalty: numbers.nesting_penalty,
                final_score: numbers.final_score,
                level: String::new(),
                primary_driver: String::new(),
            },
        );
    }
}

/// The risk score of a function, zero where it has none.
pub open spec fn risk_of(f: FunctionMetrics) -> Score {
    match f.risk {
        Some(risk) => risk.final_score,
        None => Score { bits: 0 },
    }
}

/// The risk score of a function, zero where it has none.
pub fn risk_score(function: &FunctionMetrics) -> (s: Score)
    ensures
        s == risk_of(*function),
{
    match &function.risk {
        Some(risk) => risk.final_score,
        None => Score::zero(),
    }
}

/// The risk scores of functions.
pub open spec fn risk_values(functions: Seq<FunctionMetrics>) -> Seq<Score> {
    functions.map_values(|f: FunctionMetrics| risk_of(f))
}

/// The percentile of a value among `n` values, `rank` of which are less. It is the
/// whole where there is nothing to compare with.
pub open spec fn percentile(rank: nat, n: nat) -> Ratio {
    if n <= 1 {
        Ratio { numerator: 1, denominator: 1 }
    } else {
        Ratio { numerator: rank as u128, denominator: (n - 1) as u128 }
    }
}

/// How many scores are below one.
pub open spec fn scores_below(values: Seq<Score>, score: Score) -> nat {
    how_many(values, |x: Score| x.key() < score.key())
}

/// How many counts are below one.
pub open spec fn counts_below(values: Seq<u64>, count: u64) -> nat {
    how_many(values, |x: u64| x < count)
}

/// The percentile of a score among scores that have been sorted.
fn percentile_score(sorted: &Vec<Score>, score: Score) -> (r: Ratio)
    ensures
        forall|values: Seq<Score>| #[trigger]
            is_stable_sort(&ScoreOrder, values, sorted@) ==> r == percentile(
                scores_below(values, score),
                values.len(),
            ),
{
    let ghost below = |x: Score| x.key() < score.key();
    let mut lo: usize = 0;
    let mut hi: usize = sorted.len();
    let ghost mut ranked = false;
    proof {
        ranked = forall|i: int, j: int|
            #![trigger sorted@[i], sorted@[j]]
            0 <= i < j < sorted.len() ==> sorted@[i].key() <= sorted@[j].key();
    }
    while lo < hi
        invariant
            below == (|x: Score| x.key() < score.key()),
            ranked == (forall|i: int, j: int|
                #![trigger sorted@[i], sorted@[j]]
                0 <= i < j < sorted.len() ==> sorted@[i].key() <= sorted@[j].key()),
            lo <= hi <= sorted.len(),
            ranked ==> forall|i: int| 0 <= i < lo ==> below(#[trigger] sorted@[i]),
            ranked ==> forall|i: int| hi <= i < sorted.len() ==> !below(#[trigger] sorted@[i]),
        decreases hi - lo,
    {
        let mid: usize = lo + (hi - lo) / 2;
        if score.at_most(sorted[mid]) {
            proof {
                assert forall|i: int| ranked && mid <= i < sorted.len() implies !below(
                    #[trigger] sorted@[i],
                ) by {
                    if i > mid {
                        assert(sorted@[mid as int].key() <= sorted@[i].key());
                    }
                }
            }
            hi = mid;
        } else {
            proof {
                assert forall|i: int| ranked && 0 <= i < mid + 1 implies below(
                    #[trigger] sorted@[i],
                ) by {
                    if i < mid {
                        assert(sorted@[i].key() <= sorted@[mid as int].key());
                    }
                }
            }
            lo = mid + 1;
        }
    }
    let n: usize = sorted.len();
    proof {
        assert forall|values: Seq<Score>| #[trigger]
            is_stable_sort(&ScoreOrder, values, sorted@) implies scores_below(values, score) == lo
            && values.len() == n by {
            lemma_stable_sort_keeps(&ScoreOrder, values, sorted@, score);
            let order = choose|order: Seq<int>|
                crate::order::is_stable_arrangement(&ScoreOrder, values, sorted@, order);
            assert(ranked) by {
                assert forall|i: int, j: int|
                    #![trigger sorted@[i], sorted@[j]]
                    0 <= i < j < sorted.len() implies sorted@[i].key() <= sorted@[j].key() by {
                    assert(ScoreOrder.at_most(sorted@[i], sorted@[j]));
                }
            }
            lemma_sorted_count(&ScoreOrder, values, sorted@, below, lo as int);
        }
    }
    if n <= 1 {
        Ratio { numerator: 1, denominator: 1 }
    } else {
        Ratio { numerator: lo as u128, denominator: (n - 1) as u128 }
    }
}

/// The percentile of a count among counts that have been sorted.
fn percentile_count(sorted: &Vec<u64>, count: u64) -> (r: Ratio)
    ensures
        forall|values: Seq<u64>| #[trigger]
            is_stable_sort(&CountOrder, values, sorted@) ==> r == percentile(
                counts_below(values, count),
                values.len(),
            ),
{
    let ghost below = |x: u64| x < count;
    let mut lo: usize = 0;
    let mut hi: usize = sorted.len();
    let ghost mut ranked = false;
    proof {
        ranked = forall|i: int, j: int|
            #![trigger sorted@[i], sorted@[j]]
            0 <= i < j < sorted.len() ==> sorted@[i] <= sorted@[j];
    }
    while lo < hi
        invariant
            below == (|x: u64| x < count),
            ranked == (forall|i: int, j: int|
                #![trigger sorted@[i], sorted@[j]]
                0 <= i < j < sorted.len() ==> sorted@[i] <= sorted@[j]),
            lo <= hi <= sorted.len(),
            ranked ==> forall|i: int| 0 <= i < lo ==> below(#[trigger] sorted@[i]),
            ranked ==> forall|i: int| hi <= i < sorted.len() ==> !below(#[trigger] sorted@[i]),
        decreases hi - lo,
    {
        let mid: usize = lo + (hi - lo) / 2;
        if count <= sorted[mid] {
            proof {
                assert forall|i: int| ranked && mid <= i < sorted.len() implies !below(
                    #[trigger] sorted@[i],
                ) by {
                    if i > mid {
                        assert(sorted@[mid as int] <= sorted@[i]);
                    }
                }
            }
            hi = mid;
        } else {
            proof {
                assert forall|i: int| ranked && 0 <= i < mid + 1 implies below(
                    #[trigger] sorted@[i],
                ) by {
                    if i < mid {
                        assert(sorted@[i] <= sorted@[mid as int]);
                    }
                }
            }
            lo = mid + 1;
        }
    }
    let n: usize = sorted.len();
    proof {
        assert forall|values: Seq<u64>| #[trigger]
            is_stable_sort(&CountOrder, values, sorted@) implies counts_below(values, count) == lo
            && values.len() == n by {
            lemma_stable_sort_keeps(&CountOrder, values, sorted@, count);
            let order = choose|order: Seq<int>|
                crate::order::is_stable_arrangement(&CountOrder, values, sorted@, order);
            assert(ranked) by {
                assert forall|i: int, j: int|
                    #![trigger sorted@[i], sorted@[j]]
                    0 <= i < j < sorted.len() implies sorted@[i] <= sorted@[j] by {
                    assert(CountOrder.at_most(sorted@[i], sorted@[j]));
                }
            }
            lemma_sorted_count(&CountOrder, values, sorted@, below, lo as int);
        }
    }
    if n <= 1 {
        Ratio { numerator: 1, denominator: 1 }
    } else {
        Ratio { numerator: lo as u128, denominator: (n - 1) as u128 }
    }
}

/// The level of a risk by its percentile.
pub open spec fn level_of(rank: Ratio) -> Seq<char> {
    if 100 * rank.numerator >= 95 * rank.denominator {
        "critical"@
    } else if 100 * rank.numerator >= 80 * rank.denominator {
        "high"@
    } else if 100 * rank.numerator >= 50 * rank.denominator {
        "medium"@
    } else {
        "low"@
    }
}

/// The level of a risk by its percentile.
pub fn risk_level(rank: Ratio) -> (s: String)
    requires
        rank.numerator <= u64::MAX,
        rank.denominator <= u64::MAX,
    ensures
        s@ == level_of(rank),
{
    let part: u128 = 100 * rank.numerator;
    if part >= 95 * rank.denominator {
        "critical".to_string()
    } else if part >= 80 * rank.denominator {
        "high".to_string()
    } else if part >= 50 * rank.denominator {
        "medium".to_string()
    } else {
        "low".to_string()
    }
}

/// How grave a level is.
pub open spec fn gravity(level: Seq<char>) -> int {
    if level == "critical"@ {
        3
    } else if level == "high"@ {
        2
    } else if level == "medium"@ {
        1
    } else {
        0
    }
}

/// The levels are told apart by their names.
proof fn lemma_levels_differ()
    ensures
        "critical"@ != "high"@,
        "critical"@ != "medium"@,
        "critical"@ != "low"@,
        "high"@ != "medium"@,
        "high"@ != "low"@,
        "medium"@ != "low"@,
{
    reveal_strlit("critical");
    reveal_strlit("high");
    reveal_strlit("medium");
    reveal_strlit("low");
    assert("critical"@[0] == 'c' && "high"@[0] == 'h' && "medium"@[0] == 'm' && "low"@[0] == 'l');
}

/// Of two functions of a project, the one with the higher risk never ranks lower,
/// and never has a less grave level.
pub proof fn lemma_riskier_never_ranks_lower(
    all: Seq<FunctionMetrics>,
    f: FunctionMetrics,
    g: FunctionMetrics,
)
    requires
        risk_of(f).key() <= risk_of(g).key(),
        all.len() <= usize::MAX,
    ensures
        ranks_of(f, all).risk.numerator <= ranks_of(g, all).risk.numerator,
        ranks_of(f, all).risk.denominator == ranks_of(g, all).risk.denominator,
        gravity(level_of(ranks_of(f, all).risk)) <= gravity(level_of(ranks_of(g, all).risk)),
{
    let values = risk_values(all);
    let a = places_where(values, |x: Score| x.key() < risk_of(f).key());
    let b = places_where(values, |x: Score| x.key() < risk_of(g).key());
    lemma_below_bound(values, risk_of(f));
    lemma_below_bound(values, risk_of(g));
    assert(a.subset_of(b));
    let range = vstd::set_lib::set_int_range(0, values.len() as int);
    vstd::set_lib::lemma_int_range(0, values.len() as int);
    assert(b.subset_of(range));
    vstd::set_lib::lemma_len_subset(b, range);
    vstd::set_lib::lemma_len_subset(a, b);
    lemma_levels_differ();
}

/// A function that there is nothing to compare with is told as critical.
pub proof fn lemma_lone_function_is_critical(f: FunctionMetrics, all: Seq<FunctionMetrics>)
    requires
        all.len() <= 1,
    ensures
        level_of(ranks_of(f, all).risk) == "critical"@,
{
}

/// The contributions in the order in which they are looked at.
pub open spec fn contribution_list(c: Contributions) -> Seq<Score> {
    seq![
        c.cognitive,
        c.churn,
        c.churn_recent,
        c.fan_in,
        c.cyclomatic,
        c.loc,
        c.authors,
        c.coverage_gap,
    ]
}

/// The names of the metrics in that order.
pub open spec fn driver_names() -> Seq<Seq<char>> {
    seq![
        "cognitive"@,
        "churn"@,
        "churn_recent"@,
        "fan_in"@,
        "cyclomatic"@,
        "loc"@,
        "authors"@,
        "coverage_gap"@,
    ]
}

/// Whether the score at a place is the largest, and the first that is.
pub open spec fn is_first_largest(list: Seq<Score>, k: int) -> bool {
    &&& 0 <= k < list.len()
    &&& forall|i: int| 0 <= i < list.len() ==> (#[trigger] list[i]).key() <= list[k].key()
    &&& forall|i: int| 0 <= i < k ==> (#[trigger] list[i]).key() < list[k].key()
}

/// Whether a metric adds most to the base score; of several that do, the first.
pub open spec fn is_driver(name: Seq<char>, c: Contributions) -> bool {
    exists|k: int| #[trigger]
        is_first_largest(contribution_list(c), k) && name == driver_names()[k]
}

/// The metric that adds most to the base score.
pub fn primary_driver(c: &Contributions) -> (s: String)
    ensures
        is_driver(s@, *c),
{
    let ghost list = contribution_list(*c);
    let mut best: usize = 0;
    let mut top = c.cognitive;
    if !c.churn.at_most(top) {
        best = 1;
        top = c.churn;
    }
    if !c.churn_recent.at_most(top) {
        best = 2;
        top = c.churn_recent;
    }
    if !c.fan_in.at_most(top) {
        best = 3;
        top = c.fan_in;
    }
    if !c.cyclomatic.at_most(top) {
        best = 4;
        top = c.cyclomatic;
    }
    if !c.loc.at_most(top) {
        best = 5;
        top = c.loc;
    }
    if !c.authors.at_most(top) {
        best = 6;
        top = c.authors;
    }
    if !c.coverage_gap.at_most(top) {
        best = 7;
        top = c.coverage_gap;
    }
    proof {
        assert(list.len() == 8);
        assert(list[0] == c.cognitive && list[1] == c.churn && list[2] == c.churn_recent && list[3]
            == c.fan_in && list[4] == c.cyclomatic && list[5] == c.loc && list[6] == c.authors
            && list[7] == c.coverage_gap);
        assert forall|i: int| 0 <= i < list.len() implies (#[trigger] list[i]).key()
            <= list[best as int].key() by {
            if i == 0 {
            } else if i == 1 {
            } else if i == 2 {
            } else if i == 3 {
            } else if i == 4 {
            } else if i == 5 {
            } else if i == 6 {
            }
        }
        assert forall|i: int| 0 <= i < best implies (#[trigger] list[i]).key()
            < list[best as int].key() by {
            if i == 0 {
            } else if i == 1 {
            } else if i == 2 {
            } else if i == 3 {
            } else if i == 4 {
            } else if i == 5 {
            } else if i == 6 {
            }
        }
        assert(is_first_largest(list, best as int));
    }
    if best == 0 {
        "cognitive".to_string()
    } else if best == 1 {
        "churn".to_string()
    } else if best == 2 {
        "churn_recent".to_string()
    } else if best == 3 {
        "fan_in".to_string()
    } else if best == 4 {
        "cyclomatic".to_string()
    } else if best == 5 {
        "loc".to_string()
    } else if best == 6 {
        "authors".to_string()
    } else {
        "coverage_gap".to_string()
    }
}

/// The percentiles of a function among all.
pub open spec fn ranks_of(f: FunctionMetrics, all: Seq<FunctionMetrics>) -> PercentileMetrics {
    PercentileMetrics {
        risk: percentile(scores_below(risk_values(all), risk_of(f)), all.len()),
        churn: percentile(scores_below(churn_values(all), f.churn_score), all.len()),
        cognitive: percentile(
            counts_below(cognitive_values(all), f.cognitive_complexity as u64),
            all.len(),
        ),
    }
}

impl<NC, NS, RK, CB> Arithmetic<NC, NS, RK, CB> where
    NC: Fn(u64, u64) -> Score,
    NS: Fn(Score, Score) -> Score,
    RK: Fn(NormalizedMetrics, Weights, u32) -> RiskNumbers,
    CB: Fn(NormalizedMetrics, Weights) -> Contributions,
 {
    /// Whether a scored function is told with its percentiles, its level and what
    /// drives its risk most.
    pub open spec fn is_labelled(
        self,
        after: FunctionMetrics,
        before: FunctionMetrics,
        all: Seq<FunctionMetrics>,
    ) -> bool {
        &&& after == (FunctionMetrics { percentile: after.percentile, risk: after.risk, ..before })
        &&& after.percentile == Some(ranks_of(before, all))
        &&& after.risk is Some
        &&& after.risk->0 == (RiskMetrics {
            level: after.risk->0.level,
            primary_driver: after.risk->0.primary_driver,
            ..before.risk->0
        })
        &&& after.risk->0.level@ == level_of(ranks_of(before, all).risk)
        &&& exists|c: Contributions| #[trigger]
            call_ensures(self.contributions, (before.normalized->0, default_weights()), c)
                && is_driver(after.risk->0.primary_driver@, c)
    }

    /// Tells a scored function with its percentiles, its level and what drives its
    /// risk most. The lists hold the values of all functions, sorted.
    fn apply_percentiles_and_labels(
        &self,
        function: &mut FunctionMetrics,
        cog_vals: &Vec<u64>,
        churn_vals: &Vec<Score>,
        risk_vals: &Vec<Score>,
        all: Ghost<Seq<FunctionMetrics>>,
    )
        requires
            self.is_total(),
            old(function).normalized is Some,
            old(function).risk is Some,
            is_stable_sort(&CountOrder, cognitive_values(all@), cog_vals@),
            is_stable_sort(&ScoreOrder, churn_values(all@), churn_vals@),
            is_stable_sort(&ScoreOrder, risk_values(all@), risk_vals@),
            all@.len() <= usize::MAX,
            scores_below(risk_values(all@), risk_of(*old(function))) <= usize::MAX,
        ensures
            self.is_labelled(*final(function), *old(function), all@),
    {
        let ghost before = *function;
        let risk = percentile_score(risk_vals, risk_score(function));
        let churn = percentile_score(churn_vals, function.churn_score);
        let cognitive = percentile_count(cog_vals, function.cognitive_complexity as u64);
        assert(risk_values(all@).len() == all@.len());
        assert(churn_values(all@).len() == all@.len());
        assert(cognitive_values(all@).len() == all@.len());
        function.percentile = Some(PercentileMetrics { risk, churn, cognitive });
        let level = risk_level(risk);
        if let Some(normalized) = function.normalized {
            let c = (self.contributions)(normalized, weights());
            let driver = primary_driver(&c);
            let mut taken: Option<RiskMetrics> = None;
            std::mem::swap(&mut taken, &mut function.risk);
            if let Some(mut numbers) = taken {
                numbers.level = level;
                numbers.primary_driver = driver;
                function.risk = Some(numbers);
            }
        }
    }

    /// Tells all functions with their risk, their percentiles and their labels.
    pub fn apply_scoring_and_labels(
        &self,
        functions: &mut Vec<FunctionMetrics>,
        context: &ScoringContext,
    ) -> (d: Distributions)
        requires
            self.is_total(),
            old(functions).len() > 0,
            is_stable_sort(&CountOrder, cognitive_values(old(functions)@), context.cog_vals@),
            is_stable_sort(&ScoreOrder, churn_values(old(functions)@), context.churn_vals@),
            context.p95_idx == percentile_place(old(functions)@.len(), 95),
        ensures
            final(functions).len() == old(functions).len(),
            exists|scored: Seq<FunctionMetrics>| #[trigger]
                self.is_report(
                    final(functions)@,
                    old(functions)@,
                    scored,
                    context.caps,
                ) && self.tells(d, scored, *context),
    {
        let ghost given = functions@;
        let n: usize = functions.len();
        for i in 0..n
            invariant
                self.is_total(),
                n == functions.len() == given.len(),
                given == old(functions)@,
                forall|k: int| i <= k < n ==> functions@[k] == given[k],
                forall|k: int|
                    0 <= k < i ==> self.is_scored(
                        #[trigger] functions@[k],
                        given[k],
                        context.caps,
                    ),
        {
            let ghost untouched = functions@;
            self.apply_normalized_risk(&mut functions[i], &context.caps);
            proof {
                assert forall|k: int| 0 <= k < i + 1 implies self.is_scored(
                    #[trigger] functions@[k],
                    given[k],
                    context.caps,
                ) by {
                    if k < i {
                        assert(functions@[k] == untouched[k]);
                    }
                }
            }
        }
        let ghost scored = functions@;
        let mut risks: Vec<Score> = Vec::new();
        for i in 0..n
            invariant
                n == functions.len(),
                scored == functions@,
                risks@ == risk_values(scored.take(i as int)),
        {
            risks.push(risk_score(&functions[i]));
            proof {
                assert(scored.take(i + 1) == scored.take(i as int).push(scored[i as int]));
                assert(risk_values(scored.take(i + 1)) =~= risks@);
            }
        }
        assert(scored.take(n as int) == scored);
        let risk_vals = sort_scores(risks);
        proof {
            assert(cognitive_values(scored) =~= cognitive_values(given)) by {
                assert forall|k: int| 0 <= k < n implies cognitive_values(scored)[k]
                    == cognitive_values(given)[k] by {
                    assert(self.is_scored(scored[k], given[k], context.caps));
                }
            }
            assert(churn_values(scored) =~= churn_values(given)) by {
                assert forall|k: int| 0 <= k < n implies churn_values(scored)[k] == churn_values(
                    given,
                )[k] by {
                    assert(self.is_scored(scored[k], given[k], context.caps));
                }
            }
            lemma_stable_sort_keeps(
                &ScoreOrder,
                churn_values(given),
                context.churn_vals@,
                Score { bits: 0 },
            );
            lemma_stable_sort_keeps(&CountOrder, cognitive_values(given), context.cog_vals@, 0);
        }
        for i in 0..n
            invariant
                self.is_total(),
                n == functions.len() == scored.len(),
                n == given.len(),
                is_stable_sort(&CountOrder, cognitive_values(scored), context.cog_vals@),
                is_stable_sort(&ScoreOrder, churn_values(scored), context.churn_vals@),
                is_stable_sort(&ScoreOrder, risk_values(scored), risk_vals@),
                forall|k: int|
                    0 <= k < n ==> self.is_scored(
                        #[trigger] scored[k],
                        given[k],
                        context.caps,
                    ),
                forall|k: int| i <= k < n ==> functions@[k] == scored[k],
                forall|k: int|
                    0 <= k < i ==> self.is_labelled(#[trigger] functions@[k], scored[k], scored),
        {
            let ghost untouched = functions@;
            proof {
                assert(self.is_scored(scored[i as int], given[i as int], context.caps));
                lemma_below_bound(risk_values(scored), risk_of(scored[i as int]));
            }
            self.apply_percentiles_and_labels(
                &mut functions[i],
                &context.cog_vals,
                &context.churn_vals,
                &risk_vals,
                Ghost(scored),
            );
            proof {
                assert forall|k: int| 0 <= k < i + 1 implies self.is_labelled(
                    #[trigger] functions@[k],
                    scored[k],
                    scored,
                ) by {
                    if k < i {
                        assert(functions@[k] == untouched[k]);
                    }
                }
            }
        }
        let p95: usize = percentile_index(n, 95);
        assert(context.cog_vals@.contains(context.cog_vals@[p95 as int]));
        proof {
            lemma_stable_sort_keeps(
                &CountOrder,
                cognitive_values(given),
                context.cog_vals@,
                context.cog_vals@[p95 as int],
            );
            lemma_u32_values(given);
        }
        let d = Distributions {
            risk_p95: risk_vals[p95],
            churn_p95: context.churn_vals[p95],
            cognitive_p95: context.cog_vals[p95] as u32,
        };
        assert(self.is_report(functions@, given, scored, context.caps));
        assert(is_stable_sort(&ScoreOrder, risk_values(scored), risk_vals@));
        d
    }

    /// Whether all functions are scored, and then labelled among each other.
    pub open spec fn is_report(
        self,
        after: Seq<FunctionMetrics>,
        before: Seq<FunctionMetrics>,
        scored: Seq<FunctionMetrics>,
        caps: NormalizationCaps,
    ) -> bool {
        &&& scored.len() == before.len()
        &&& after.len() == before.len()
        &&& forall|i: int|
            0 <= i < before.len() ==> self.is_scored(#[trigger] scored[i], before[i], caps)
        &&& forall|i: int|
            0 <= i < before.len() ==> self.is_labelled(#[trigger] after[i], scored[i], scored)
    }

    /// Whether these are the values at the 95th percentile.
    pub open spec fn tells(
        self,
        d: Distributions,
        scored: Seq<FunctionMetrics>,
        context: ScoringContext,
    ) -> bool {
        let place = percentile_place(scored.len(), 95);
        &&& exists|sorted: Seq<Score>| #[trigger]
            is_stable_sort(&ScoreOrder, risk_values(scored), sorted) && d.risk_p95 == sorted[place]
        &&& d.churn_p95 == context.churn_vals@[place]
        &&& d.cognitive_p95 == context.cog_vals@[place]
    }
}

/// No more scores are below one than there are.
proof fn lemma_below_bound(values: Seq<Score>, score: Score)
    ensures
        scores_below(values, score) <= values.len(),
{
    let set = places_where(values, |x: Score| x.key() < score.key());
    let all = vstd::set_lib::set_int_range(0, values.len() as int);
    vstd::set_lib::lemma_int_range(0, values.len() as int);
    assert(set.subset_of(all));
    vstd::set_lib::lemma_len_subset(set, all);
}

} // verus!
