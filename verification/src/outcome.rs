//! What a report says of the functions that were found, from the first stage to the last.

use crate::authors::authors_of;
use crate::cache::GitCacheEntry;
use crate::coverage::CoverageIndex;
use crate::gather::Gathered;
use crate::liveness::{is_alive, is_as_found, is_mentioned, lemma_debt_is_added_up, mentions, units};
use crate::metrics::{
    AnalysisWarning, FunctionMetrics, GitAnalysisStatus, NormalizedMetrics, Report, Weights,
};
use crate::placing::{lemma_word_says_the_order, number_for, stands_first};
use crate::report::{
    is_draft, is_measured, went_through, Draft, Measured, Numbers, RepoContext, Stages,
};
use crate::score::{Ratio, Score};
use crate::scoring::{Contributions, RiskNumbers, ScoringContext};
use crate::stats::has_weighed_gap;
use crate::table::TextMap;
use vstd::prelude::*;

verus! {

/// Whether a function is told as it was found, but for what the stages tell of it:
/// coverage, coupling, reachability, risk and percentiles.
pub open spec fn is_still(after: FunctionMetrics, found: FunctionMetrics) -> bool {
    after == (FunctionMetrics {
        coverage: after.coverage,
        coupling: after.coupling,
        reachability: after.reachability,
        normalized: after.normalized,
        risk: after.risk,
        percentile: after.percentile,
        ..found
    })
}

proof fn lemma_stages_keep<G, T, W, M, NC, NS, RK, CB>(
    s: Stages,
    context: ScoringContext,
    m: Measured,
    found: Seq<FunctionMetrics>,
    coverage: Option<CoverageIndex>,
    files: Seq<GitCacheEntry>,
    total_unique_authors: nat,
    sort_by: Seq<char>,
    limit: Option<usize>,
    numbers: Numbers<G, T, W, M, NC, NS, RK, CB>,
    i: int,
) where
    G: Fn(Ratio) -> Score,
    T: Fn(Score, Score) -> bool,
    W: Fn(Score, Ratio) -> Score,
    M: Fn(&Vec<Ratio>) -> Score,
    NC: Fn(u64, u64) -> Score,
    NS: Fn(Score, Score) -> Score,
    RK: Fn(NormalizedMetrics, Weights, u32) -> RiskNumbers,
    CB: Fn(NormalizedMetrics, Weights) -> Contributions,

    requires
        went_through(
            s,
            context,
            m,
            found,
            coverage,
            files,
            total_unique_authors,
            sort_by,
            limit,
            numbers,
        ),
        0 <= i < found.len(),
    ensures
        s.covered.len() == found.len(),
        s.coupled.len() == found.len(),
        s.weighed.len() == found.len(),
        s.covered[i] == (FunctionMetrics { coverage: s.covered[i].coverage, ..found[i] }),
        s.weighed[i].reachability == s.coupled[i].reachability,
        is_still(s.coupled[i], found[i]),
        is_still(s.weighed[i], found[i]),
{
    let a = numbers.arithmetic;
    if let Some(index) = coverage {
        assert(crate::coverage::has_coverage(
            s.covered[i],
            found[i],
            crate::coverage::coverages(index.files@),
            numbers.gap,
        ));
    } else {
        assert(s.covered[i] == found[i]);
    }
    assert(crate::coupling::is_coupled(s.coupled[i], s.covered, i));
    assert(a.is_scored(s.scored[i], s.coupled[i], context.caps));
    assert(a.is_labelled(s.labelled[i], s.scored[i], s.scored));
    assert(has_weighed_gap(s.labelled[i], s.weighed[i], numbers.weigh));
}

/// A report shows the functions that were found, in the order that was asked for, and
/// no more than the limit; each of them as it was found but for what is told of it
/// besides. What is told of the project is told of all functions, whether they are
/// shown or not.
pub proof fn lemma_limit_only_shortens_the_list<G, T, W, M, NC, NS, RK, CB>(
    m: Measured,
    found: Seq<FunctionMetrics>,
    coverage: Option<CoverageIndex>,
    files: Seq<GitCacheEntry>,
    total_unique_authors: nat,
    sort_by: Seq<char>,
    limit: Option<usize>,
    numbers: Numbers<G, T, W, M, NC, NS, RK, CB>,
) -> (places: Seq<int>) where
    G: Fn(Ratio) -> Score,
    T: Fn(Score, Score) -> bool,
    W: Fn(Score, Ratio) -> Score,
    M: Fn(&Vec<Ratio>) -> Score,
    NC: Fn(u64, u64) -> Score,
    NS: Fn(Score, Score) -> Score,
    RK: Fn(NormalizedMetrics, Weights, u32) -> RiskNumbers,
    CB: Fn(NormalizedMetrics, Weights) -> Contributions,

    requires
        is_measured(
            m,
            found,
            coverage,
            files,
            total_unique_authors,
            sort_by,
            limit,
            numbers,
        ),
    ensures
        m.functions@.len() == if limit is Some && limit->0 < found.len() {
            limit->0 as nat
        } else {
            found.len()
        },
        m.summary.total_functions == m.functions@.len(),
        places.len() == m.functions@.len(),
        forall|k: int|
            #![trigger places[k]]
            0 <= k < places.len() ==> 0 <= places[k] < found.len() && is_still(
                m.functions@[k],
                found[places[k]],
            ),
        forall|k: int, l: int|
            #![trigger places[k], places[l]]
            0 <= k < l < places.len() ==> places[k] != places[l] && {
                let a = m.functions@[k];
                let b = m.functions@[l];
                number_for(sort_by, a) > number_for(sort_by, b) || number_for(sort_by, a)
                    == number_for(sort_by, b) && stands_first(a, b)
            },
        m.summary.project_stats.tech_debt_density.numerator == units(
            Seq::new(
                found.len(),
                |i: int| (found[i].cognitive_complexity + found[i].cyclomatic_complexity) as nat,
            ),
        ).len(),
        m.summary.project_stats.tech_debt_density.denominator == units(
            Seq::new(found.len(), |i: int| found[i].lines_of_code as nat),
        ).len(),
{
    if found.len() == 0 {
        lemma_debt_is_added_up(m.summary.project_stats, found, files, total_unique_authors);
        Seq::empty()
    } else {
        let (s, context) = choose|s: Stages, context: ScoringContext| #[trigger]
            went_through(
                s,
                context,
                m,
                found,
                coverage,
                files,
                total_unique_authors,
                sort_by,
                limit,
                numbers,
            );
        assert forall|i: int| 0 <= i < found.len() implies is_still(
            #[trigger] s.weighed[i],
            found[i],
        ) by {
            lemma_stages_keep(
                s,
                context,
                m,
                found,
                coverage,
                files,
                total_unique_authors,
                sort_by,
                limit,
                numbers,
                i,
            );
        }
        lemma_stages_keep(
            s,
            context,
            m,
            found,
            coverage,
            files,
            total_unique_authors,
            sort_by,
            limit,
            numbers,
            0,
        );
        let order = lemma_word_says_the_order(sort_by, s.weighed, s.sorted);
        lemma_debt_is_added_up(
            m.summary.project_stats,
            s.weighed,
            files,
            total_unique_authors,
        );
        let n = found.len();
        assert(Seq::new(
            n,
            |i: int|
                (s.weighed[i].cognitive_complexity + s.weighed[i].cyclomatic_complexity) as nat,
        ) =~= Seq::new(
            n,
            |i: int| (found[i].cognitive_complexity + found[i].cyclomatic_complexity) as nat,
        ));
        assert(Seq::new(n, |i: int| s.weighed[i].lines_of_code as nat) =~= Seq::new(
            n,
            |i: int| found[i].lines_of_code as nat,
        ));
        let places = order.take(m.functions@.len() as int);
        assert forall|k: int| 0 <= k < places.len() implies 0 <= #[trigger] places[k]
            < found.len() && is_still(m.functions@[k], found[places[k]]) by {
            assert(places[k] == order[k]);
            assert(m.functions@[k] == s.sorted[k]);
            assert(s.sorted[k] == s.weighed[order[k]]);
        }
        assert forall|k: int, l: int|
            #![trigger places[k], places[l]]
            0 <= k < l < places.len() implies places[k] != places[l] && {
            let a = m.functions@[k];
            let b = m.functions@[l];
            number_for(sort_by, a) > number_for(sort_by, b) || number_for(sort_by, a)
                == number_for(sort_by, b) && stands_first(a, b)
        } by {
            assert(places[k] == order[k] && places[l] == order[l]);
            assert(m.functions@[k] == s.sorted[k] && m.functions@[l] == s.sorted[l]);
        }
        places
    }
}

proof fn lemma_all_stages_keep<G, T, W, M, NC, NS, RK, CB>(
    s: Stages,
    context: ScoringContext,
    m: Measured,
    found: Seq<FunctionMetrics>,
    coverage: Option<CoverageIndex>,
    files: Seq<GitCacheEntry>,
    total_unique_authors: nat,
    sort_by: Seq<char>,
    limit: Option<usize>,
    numbers: Numbers<G, T, W, M, NC, NS, RK, CB>,
) where
    G: Fn(Ratio) -> Score,
    T: Fn(Score, Score) -> bool,
    W: Fn(Score, Ratio) -> Score,
    M: Fn(&Vec<Ratio>) -> Score,
    NC: Fn(u64, u64) -> Score,
    NS: Fn(Score, Score) -> Score,
    RK: Fn(NormalizedMetrics, Weights, u32) -> RiskNumbers,
    CB: Fn(NormalizedMetrics, Weights) -> Contributions,

    requires
        found.len() > 0,
        went_through(
            s,
            context,
            m,
            found,
            coverage,
            files,
            total_unique_authors,
            sort_by,
            limit,
            numbers,
        ),
    ensures
        s.covered.len() == found.len(),
        s.coupled.len() == found.len(),
        s.weighed.len() == found.len(),
        crate::report::are_coupled(s.coupled, s.covered),
        crate::stats::is_dead_code(m.summary.project_stats.dead_code, s.weighed),
        forall|i: int|
            0 <= i < found.len() ==> (#[trigger] s.covered[i]).name == found[i].name
                && s.covered[i].file == found[i].file && s.covered[i].line == found[i].line
                && s.covered[i].coupling == found[i].coupling && s.covered[i].reachability
                == found[i].reachability && s.weighed[i].reachability == s.coupled[i].reachability
                && s.weighed[i].name == found[i].name && s.weighed[i].file == found[i].file
                && s.weighed[i].line == found[i].line,
{
    assert forall|i: int| 0 <= i < found.len() implies (#[trigger] s.covered[i]).name
        == found[i].name && s.covered[i].file == found[i].file && s.covered[i].line
        == found[i].line && s.covered[i].coupling == found[i].coupling
        && s.covered[i].reachability == found[i].reachability && s.weighed[i].reachability
        == s.coupled[i].reachability && s.weighed[i].name == found[i].name && s.weighed[i].file
        == found[i].file && s.weighed[i].line == found[i].line by {
        lemma_stages_keep(
            s,
            context,
            m,
            found,
            coverage,
            files,
            total_unique_authors,
            sort_by,
            limit,
            numbers,
            i,
        );
    }
    lemma_stages_keep(
        s,
        context,
        m,
        found,
        coverage,
        files,
        total_unique_authors,
        sort_by,
        limit,
        numbers,
        0,
    );
}

/// A report lists as dead exactly those of the functions found that nothing reaches,
/// whether they are shown or not.
pub proof fn lemma_report_lists_what_nothing_reaches<G, T, W, M, NC, NS, RK, CB>(
    m: Measured,
    found: Seq<FunctionMetrics>,
    coverage: Option<CoverageIndex>,
    files: Seq<GitCacheEntry>,
    total_unique_authors: nat,
    sort_by: Seq<char>,
    limit: Option<usize>,
    numbers: Numbers<G, T, W, M, NC, NS, RK, CB>,
) -> (places: Seq<int>) where
    G: Fn(Ratio) -> Score,
    T: Fn(Score, Score) -> bool,
    W: Fn(Score, Ratio) -> Score,
    M: Fn(&Vec<Ratio>) -> Score,
    NC: Fn(u64, u64) -> Score,
    NS: Fn(Score, Score) -> Score,
    RK: Fn(NormalizedMetrics, Weights, u32) -> RiskNumbers,
    CB: Fn(NormalizedMetrics, Weights) -> Contributions,

    requires
        found.len() > 0,
        is_measured(
            m,
            found,
            coverage,
            files,
            total_unique_authors,
            sort_by,
            limit,
            numbers,
        ),
        forall|i: int| 0 <= i < found.len() ==> is_as_found(#[trigger] found[i]),
    ensures
        ({
            let dead = m.summary.project_stats.dead_code;
            &&& places.len() == dead.functions@.len()
            &&& forall|i: int|
                0 <= i < found.len() ==> (#[trigger] places.contains(i) <==> !is_alive(found, i))
            &&& forall|k: int|
                #![trigger places[k]]
                0 <= k < places.len() ==> 0 <= places[k] < found.len()
                    && dead.functions@[k].name == found[places[k]].name
                    && dead.functions@[k].file == found[places[k]].file
                    && dead.functions@[k].line == found[places[k]].line
                    && dead.functions@[k].safe_to_delete
        }),
{
    let (s, context) = choose|s: Stages, context: ScoringContext| #[trigger]
        went_through(
            s,
            context,
            m,
            found,
            coverage,
            files,
            total_unique_authors,
            sort_by,
            limit,
            numbers,
        );
    lemma_all_stages_keep(
        s,
        context,
        m,
        found,
        coverage,
        files,
        total_unique_authors,
        sort_by,
        limit,
        numbers,
    );
    lemma_dead_of_found(m, s.weighed, s.coupled, s.covered, found)
}

proof fn lemma_dead_of_found(
    m: Measured,
    weighed: Seq<FunctionMetrics>,
    coupled: Seq<FunctionMetrics>,
    covered: Seq<FunctionMetrics>,
    found: Seq<FunctionMetrics>,
) -> (places: Seq<int>)
    requires
        crate::stats::is_dead_code(m.summary.project_stats.dead_code, weighed),
        crate::report::are_coupled(coupled, covered),
        covered.len() == found.len(),
        coupled.len() == found.len(),
        weighed.len() == found.len(),
        forall|i: int| 0 <= i < found.len() ==> is_as_found(#[trigger] found[i]),
        forall|i: int|
            0 <= i < found.len() ==> (#[trigger] covered[i]).name == found[i].name
                && covered[i].file == found[i].file && covered[i].line == found[i].line
                && covered[i].coupling == found[i].coupling && covered[i].reachability
                == found[i].reachability && weighed[i].reachability == coupled[i].reachability
                && weighed[i].name == found[i].name && weighed[i].file == found[i].file
                && weighed[i].line == found[i].line,
    ensures
        ({
            let dead = m.summary.project_stats.dead_code;
            &&& places.len() == dead.functions@.len()
            &&& forall|i: int|
                0 <= i < found.len() ==> (#[trigger] places.contains(i) <==> !is_alive(found, i))
            &&& forall|k: int|
                #![trigger places[k]]
                0 <= k < places.len() ==> 0 <= places[k] < found.len()
                    && dead.functions@[k].name == found[places[k]].name
                    && dead.functions@[k].file == found[places[k]].file
                    && dead.functions@[k].line == found[places[k]].line
                    && dead.functions@[k].safe_to_delete
        }),
{
    lemma_alive_alike(found, covered);
    assert forall|i: int| 0 <= i < covered.len() implies is_as_found(#[trigger] covered[i]) by {
        assert(is_as_found(found[i]));
    }
    let places = lemma_dead_of_weighed(m, weighed, coupled, covered);
    assert forall|i: int| 0 <= i < found.len() implies (#[trigger] places.contains(i)
        <==> !is_alive(found, i)) by {
        assert(is_alive(covered, i) == is_alive(found, i));
    }
    assert forall|k: int| 0 <= k < places.len() implies 0 <= #[trigger] places[k] < found.len()
        && covered[places[k]].name == found[places[k]].name && covered[places[k]].file
        == found[places[k]].file && covered[places[k]].line == found[places[k]].line by {}
    places
}

/// What is covered is as alive as what was found.
proof fn lemma_alive_alike(found: Seq<FunctionMetrics>, covered: Seq<FunctionMetrics>)
    requires
        covered.len() == found.len(),
        forall|i: int|
            0 <= i < found.len() ==> (#[trigger] covered[i]).name == found[i].name
                && covered[i].file == found[i].file && covered[i].coupling == found[i].coupling
                && covered[i].reachability == found[i].reachability,
    ensures
        forall|i: int|
            0 <= i < found.len() ==> #[trigger] is_alive(covered, i) == is_alive(found, i),
{
    assert forall|i: int| 0 <= i < found.len() implies #[trigger] is_alive(covered, i) == is_alive(
        found,
        i,
    ) by {
        assert(covered[i].name == found[i].name);
        if is_mentioned(covered, i) {
            let j = choose|j: int|
                0 <= j < covered.len() && j != i && #[trigger] mentions(covered[j], covered[i]);
            assert(mentions(found[j], found[i]));
        }
        if is_mentioned(found, i) {
            let j = choose|j: int|
                0 <= j < found.len() && j != i && #[trigger] mentions(found[j], found[i]);
            assert(covered[j].name == found[j].name);
            assert(mentions(covered[j], covered[i]));
        }
    }
}

proof fn lemma_dead_of_weighed(
    m: Measured,
    weighed: Seq<FunctionMetrics>,
    coupled: Seq<FunctionMetrics>,
    covered: Seq<FunctionMetrics>,
) -> (places: Seq<int>)
    requires
        crate::stats::is_dead_code(m.summary.project_stats.dead_code, weighed),
        crate::report::are_coupled(coupled, covered),
        weighed.len() == coupled.len(),
        forall|i: int|
            0 <= i < covered.len() ==> is_as_found(#[trigger] covered[i])
                && weighed[i].reachability == coupled[i].reachability && weighed[i].name
                == covered[i].name && weighed[i].file == covered[i].file && weighed[i].line
                == covered[i].line,
    ensures
        ({
            let dead = m.summary.project_stats.dead_code;
            &&& places.len() == dead.functions@.len()
            &&& forall|i: int|
                0 <= i < covered.len() ==> (#[trigger] places.contains(i) <==> !is_alive(
                    covered,
                    i,
                ))
            &&& forall|k: int|
                #![trigger places[k]]
                0 <= k < places.len() ==> 0 <= places[k] < covered.len()
                    && dead.functions@[k].name == covered[places[k]].name
                    && dead.functions@[k].file == covered[places[k]].file
                    && dead.functions@[k].line == covered[places[k]].line
                    && dead.functions@[k].safe_to_delete
        }),
{
    let dead = m.summary.project_stats.dead_code;
    let places = crate::liveness::lemma_dead_code_is_told(dead, weighed);
    assert forall|i: int| 0 <= i < covered.len() implies (
    #[trigger] weighed[i]).reachability.is_reachable == is_alive(covered, i) && (
    !weighed[i].reachability.is_reachable ==> weighed[i].reachability.kind@
        == "unreachable_private"@) by {
        assert(is_as_found(covered[i]));
        crate::liveness::lemma_reached_is_told(coupled, covered, i);
    }
    assert forall|i: int| 0 <= i < covered.len() implies (#[trigger] places.contains(i)
        <==> !is_alive(covered, i)) by {
        assert(weighed[i].reachability.is_reachable == is_alive(covered, i));
    }
    assert forall|k: int| 0 <= k < places.len() implies 0 <= #[trigger] places[k]
        < covered.len() && dead.functions@[k].name == covered[places[k]].name
        && dead.functions@[k].file == covered[places[k]].file && dead.functions@[k].line
        == covered[places[k]].line && dead.functions@[k].safe_to_delete by {
        let i = places[k];
        assert(places.contains(i));
        assert(is_as_found(covered[i]));
        assert(!weighed[i].reachability.is_reachable);
    }
    places
}

/// A report is complete exactly if there is nothing to warn of, no file was left out and
/// all of the history was read. A cache that could not be saved is warned of.
pub proof fn lemma_complete_means_nothing_is_missing(
    draft: Draft,
    report: Report,
    saved: Option<Result<(), String>>,
)
    requires
        draft.makes(report, saved),
    ensures
        report.quality.status is Complete <==> report.quality.warnings@.len() == 0
            && report.quality.skipped_files@.len() == 0 && !report.quality.git.partial,
        report.quality.cache.saved <==> saved is Some && saved->0 is Ok,
        saved is Some && saved->0 is Err ==> report.quality.warnings@.len()
            == draft.warnings@.len() + 1 && report.quality.warnings@.last().code@
            == "cache_save_failed"@ && report.quality.status is Partial,
        !(saved is Some && saved->0 is Err) ==> report.quality.warnings@ == draft.warnings@,
        report.functions@ == draft.measured.functions@,
        report.summary == draft.measured.summary,
        report.schema_version@ == "0.4.0"@,
{
}

/// Whether somebody is an author of one of some files.
pub open spec fn is_author_of(files: Seq<GitCacheEntry>, k: int, a: Seq<char>) -> bool {
    0 <= k < files.len() && files[k].authors@.contains(a)
}

proof fn lemma_authors(files: Seq<GitCacheEntry>)
    ensures
        authors_of(files) =~= Set::new(
            |a: Seq<char>| exists|k: int| #[trigger] is_author_of(files, k, a),
        ),
    decreases files.len(),
{
    let all = Set::new(|a: Seq<char>| exists|k: int| #[trigger] is_author_of(files, k, a));
    if files.len() > 0 {
        let had = files.drop_last();
        let n = had.len() as int;
        lemma_authors(had);
        assert forall|a: Seq<char>| #[trigger] authors_of(files).contains(a) <==> all.contains(
            a,
        ) by {
            if authors_of(had).contains(a) {
                let k = choose|k: int| #[trigger] is_author_of(had, k, a);
                assert(is_author_of(files, k, a));
            }
            if files.last().authors@.contains(a) {
                assert(is_author_of(files, n, a));
            }
            if all.contains(a) {
                let k = choose|k: int| #[trigger] is_author_of(files, k, a);
                if k < n {
                    assert(is_author_of(had, k, a));
                }
            }
        }
    }
}

/// The words that functions can be sorted by.
pub open spec fn sort_words() -> Set<Seq<char>> {
    set![
        "file"@,
        "location"@,
        "churn"@,
        "churn_score"@,
        "risk"@,
        "risk_score"@,
        "cognitive"@,
        "cognitive_complexity"@,
        "cyclomatic"@,
        "cyclomatic_complexity"@,
        "loc"@,
        "lines_of_code"@,
    ]
}

/// What a report rests on: the authors of all files are counted, whether the files are
/// still there or not, while only the histories of those that are there are kept. What
/// was found is kept for the next time if there is a cache, and anything was found. It is
/// warned of if nothing was found, and of a word that functions cannot be sorted by.
pub proof fn lemma_what_a_report_rests_on<G, T, W, M, NC, NS, RK, CB>(
    d: Draft,
    kept: TextMap<GitCacheEntry>,
    ctx: RepoContext,
    git_cache: TextMap<GitCacheEntry>,
    git: GitAnalysisStatus,
    found: Gathered,
    warnings: Seq<AnalysisWarning>,
    sort_by: Seq<char>,
    limit: Option<usize>,
    numbers: Numbers<G, T, W, M, NC, NS, RK, CB>,
) where
    G: Fn(Ratio) -> Score,
    T: Fn(Score, Score) -> bool,
    W: Fn(Score, Ratio) -> Score,
    M: Fn(&Vec<Ratio>) -> Score,
    NC: Fn(u64, u64) -> Score,
    NS: Fn(Score, Score) -> Score,
    RK: Fn(NormalizedMetrics, Weights, u32) -> RiskNumbers,
    CB: Fn(NormalizedMetrics, Weights) -> Contributions,

    requires
        is_draft(
            d,
            kept,
            ctx,
            git_cache,
            git,
            found,
            warnings,
            sort_by,
            limit,
            numbers,
        ),
    ensures
        d.measured.summary.project_stats.total_unique_authors == Set::new(
            |a: Seq<char>| exists|k: int| #[trigger] is_author_of(git_cache.values(), k, a),
        ).len(),
        forall|path: Seq<char>| #[trigger]
            kept@.contains_key(path) <==> git_cache@.contains_key(path)
                && found.active_paths.contains(path),
        forall|path: Seq<char>| #[trigger]
            kept@.contains_key(path) ==> kept@[path] == git_cache@[path],
        d.to_save is Some <==> ctx.cache_enabled && found.functions.len() > 0,
        d.to_save is Some ==> d.to_save->0.files@ == found.cache_entries
            && d.to_save->0.git_cache@ == kept@ && (d.to_save->0.last_commit_oid is Some
            <==> ctx.metadata.commit_hash@.len() > 0) && (d.to_save->0.last_commit_oid is Some
            ==> d.to_save->0.last_commit_oid->0@ == ctx.metadata.commit_hash@),
        d.git == git,
        d.skipped_files@ == found.skipped_files,
        d.cache_stats.hits == found.cache_hits,
        d.cache_stats.misses == found.cache_misses,
        found.functions.len() > 0 && sort_words().contains(sort_by) ==> d.warnings@ == warnings
            + found.warnings,
        found.functions.len() == 0 || !sort_words().contains(sort_by) ==> d.warnings@.len()
            == warnings.len() + found.warnings.len() + 1 && d.warnings@.drop_last() == warnings
            + found.warnings,
        found.functions.len() == 0 ==> d.warnings@.last().code@ == "no_functions_found"@,
        found.functions.len() > 0 && !sort_words().contains(sort_by)
            ==> d.warnings@.last().code@ == "unsupported_sort"@,
{
    lemma_authors(git_cache.values());
    assert(crate::ranking::sort_key(sort_by) is Some <==> sort_words().contains(sort_by));
    assert(kept@ == git_cache@.restrict(found.active_paths));
    if found.functions.len() > 0 {
        let (s, context) = choose|s: Stages, context: ScoringContext| #[trigger]
            went_through(
                s,
                context,
                d.measured,
                found.functions,
                ctx.coverage,
                kept.values(),
                authors_of(git_cache.values()).len(),
                sort_by,
                limit,
                numbers,
            );
    }
}

} // verus!
