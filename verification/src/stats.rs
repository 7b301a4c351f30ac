//! What is told of the project as a whole.

use crate::authors::{
    author_contributions, bus_factor, contribution, held, held_of, is_bus_factor, is_contributor,
};
use crate::cache::GitCacheEntry;
use crate::metrics::{
    CoverageMetrics, DeadCodeFunction, DeadCodeStats, FunctionMetrics, ProjectCoverage,
    ProjectStats,
};
use crate::ranking::{are_hotspots, top_hotspots};
use crate::score::{Ratio, Score};
use crate::scoring::{risk_of, risk_score};
use crate::table::{ascending, TextMap};
use vstd::prelude::*;

verus! {

/// The functions that nothing reaches.
pub open spec fn never_reached(functions: Seq<FunctionMetrics>) -> Seq<FunctionMetrics>
    decreases functions.len(),
{
    if functions.len() == 0 {
        Seq::empty()
    } else if functions.last().reachability.is_reachable {
        never_reached(functions.drop_last())
    } else {
        never_reached(functions.drop_last()).push(functions.last())
    }
}

/// What is told of a function that nothing reaches.
pub open spec fn dead_function(f: FunctionMetrics) -> DeadCodeFunction {
    DeadCodeFunction {
        id: f.id,
        name: f.name,
        file: f.file,
        line: f.line,
        lines_of_code: f.lines_of_code,
        kind: f.reachability.kind,
        safe_to_delete: f.reachability.kind@ == "unreachable_private"@,
    }
}

/// How many lines functions have.
pub open spec fn total_lines(functions: Seq<FunctionMetrics>) -> nat
    decreases functions.len(),
{
    if functions.len() == 0 {
        0
    } else {
        total_lines(functions.drop_last()) + functions.last().lines_of_code as nat
    }
}

/// How complex functions are, by both measures together.
pub open spec fn total_complexity(functions: Seq<FunctionMetrics>) -> nat
    decreases functions.len(),
{
    if functions.len() == 0 {
        0
    } else {
        total_complexity(functions.drop_last()) + functions.last().cognitive_complexity as nat
            + functions.last().cyclomatic_complexity as nat
    }
}

/// How many functions are reachable in a way, or unreachable in one.
pub open spec fn count_of_kind(functions: Seq<FunctionMetrics>, kind: Seq<char>) -> nat
    decreases functions.len(),
{
    if functions.len() == 0 {
        0
    } else {
        count_of_kind(functions.drop_last(), kind) + if functions.last().reachability.kind@
            == kind {
            1nat
        } else {
            0nat
        }
    }
}

/// Whether this is what is told of the functions that nothing reaches.
pub open spec fn is_dead_code(stats: DeadCodeStats, functions: Seq<FunctionMetrics>) -> bool {
    let dead = never_reached(functions);
    &&& stats.functions@ == dead.map_values(|f: FunctionMetrics| dead_function(f))
    &&& stats.unreachable_functions == dead.len()
    &&& stats.unreachable_private == count_of_kind(dead, "unreachable_private"@)
    &&& stats.unreachable_export == count_of_kind(dead, "unreachable_export"@)
    &&& stats.unreachable_loc == total_lines(dead)
    &&& stats.safe_to_delete == count_of_kind(dead, "unreachable_private"@)
}

/// Tells of the functions that nothing reaches.
pub fn build_dead_code_stats(functions: &Vec<FunctionMetrics>) -> (stats: DeadCodeStats)
    ensures
        is_dead_code(stats, functions@),
{
    let mut list: Vec<DeadCodeFunction> = Vec::new();
    let mut private: usize = 0;
    let mut exported: usize = 0;
    let mut lines: u128 = 0;
    let ghost all = functions@;
    assert(never_reached(all.take(0)).map_values(|f: FunctionMetrics| dead_function(f))
        =~= Seq::<DeadCodeFunction>::empty());
    for i in 0..functions.len()
        invariant
            all == functions@,
            list.len() <= i,
            private <= i,
            exported <= i,
            lines <= i * 0xffff_ffff,
            list@ == never_reached(all.take(i as int)).map_values(
                |f: FunctionMetrics| dead_function(f),
            ),
            private == count_of_kind(never_reached(all.take(i as int)), "unreachable_private"@),
            exported == count_of_kind(never_reached(all.take(i as int)), "unreachable_export"@),
            lines == total_lines(never_reached(all.take(i as int))),
    {
        let f = &functions[i];
        proof {
            assert(all.take(i + 1).drop_last() == all.take(i as int));
            assert(all.take(i + 1).last() == all[i as int]);
        }
        let ghost before = never_reached(all.take(i as int));
        if !f.reachability.is_reachable {
            let safe = f.reachability.kind.as_str().eq("unreachable_private");
            if safe {
                private = private + 1;
            }
            if f.reachability.kind.as_str().eq("unreachable_export") {
                exported = exported + 1;
            }
            lines = lines + f.lines_of_code as u128;
            list.push(
                DeadCodeFunction {
                    id: f.id.clone(),
                    name: f.name.clone(),
                    file: f.file.clone(),
                    line: f.line,
                    lines_of_code: f.lines_of_code,
                    kind: f.reachability.kind.clone(),
                    safe_to_delete: safe,
                },
            );
            proof {
                let after = before.push(*f);
                assert(after.drop_last() == before);
                assert(after.map_values(|f: FunctionMetrics| dead_function(f))
                    =~= before.map_values(|f: FunctionMetrics| dead_function(f)).push(
                    dead_function(*f),
                ));
            }
        }
    }
    assert(all.take(functions.len() as int) == all);
    DeadCodeStats {
        unreachable_functions: list.len(),
        unreachable_private: private,
        unreachable_export: exported,
        unreachable_loc: lines,
        safe_to_delete: private,
        functions: list,
    }
}

/// How complex the functions are for each line of theirs.
pub fn tech_debt_density(functions: &Vec<FunctionMetrics>) -> (density: Ratio)
    ensures
        density.numerator == total_complexity(functions@),
        density.denominator == total_lines(functions@),
{
    let mut complexity: u128 = 0;
    let mut lines: u128 = 0;
    let ghost all = functions@;
    for i in 0..functions.len()
        invariant
            all == functions@,
            complexity <= i * 0x1_ffff_fffe,
            lines <= i * 0xffff_ffff,
            complexity == total_complexity(all.take(i as int)),
            lines == total_lines(all.take(i as int)),
    {
        let f = &functions[i];
        proof {
            assert(all.take(i + 1).drop_last() == all.take(i as int));
            assert(all.take(i + 1).last() == all[i as int]);
        }
        complexity = complexity + f.cognitive_complexity as u128 + f.cyclomatic_complexity as u128;
        lines = lines + f.lines_of_code as u128;
    }
    assert(all.take(functions.len() as int) == all);
    Ratio { numerator: complexity, denominator: lines }
}

/// Whether a bus factor is that of some files' histories.
pub open spec fn is_bus_factor_of(k: nat, files: Seq<GitCacheEntry>) -> bool {
    exists|map: TextMap<usize>| #[trigger] tells_contributions(map, files) && is_bus_factor(k, map.values())
}

/// Whether a map tells what each author is credited with.
pub open spec fn tells_contributions(map: TextMap<usize>, files: Seq<GitCacheEntry>) -> bool {
    &&& ascending(map.keys())
    &&& forall|a: Seq<char>| #[trigger] map@.contains_key(a) <==> is_contributor(files, a)
    &&& forall|a: Seq<char>| #[trigger] held_of(map@, a) == held(contribution(files, a))
}

/// Whether this is what is told of a project.
pub open spec fn is_project(
    stats: ProjectStats,
    functions: Seq<FunctionMetrics>,
    files: Seq<GitCacheEntry>,
    total_unique_authors: nat,
) -> bool {
    &&& stats.total_unique_authors == total_unique_authors
    &&& is_bus_factor_of(stats.bus_factor as nat, files)
    &&& stats.tech_debt_density.numerator == total_complexity(functions)
    &&& stats.tech_debt_density.denominator == total_lines(functions)
    &&& are_hotspots(stats.top_hotspots@, functions)
    &&& is_dead_code(stats.dead_code, functions)
}

/// Tells of the project: its authors, its debt, its hotspots and its dead code.
pub fn build_project_stats(
    functions: &Vec<FunctionMetrics>,
    git_cache: &TextMap<GitCacheEntry>,
    total_unique_authors: usize,
) -> (stats: ProjectStats)
    ensures
        is_project(stats, functions@, git_cache.values(), total_unique_authors as nat),
{
    let contributions = author_contributions(git_cache);
    let _people: usize = contributions.len();
    assert(tells_contributions(contributions, git_cache.values()));
    ProjectStats {
        total_unique_authors,
        bus_factor: bus_factor(&contributions),
        tech_debt_density: tech_debt_density(functions),
        top_hotspots: top_hotspots(functions),
        dead_code: build_dead_code_stats(functions),
    }
}

/// Whether a score is at least 0.8, as doubles are compared.
pub open spec fn is_high(score: Score) -> bool {
    0x3fe9_9999_9999_999a <= score.bits <= 0x7ff0_0000_0000_0000
}

/// Whether a ratio is below one half. Where nothing can be covered the ratio is
/// zero.
pub open spec fn is_below_half(r: Ratio) -> bool {
    r.denominator == 0 || 2 * r.numerator < r.denominator
}

/// Whether a function carries a high risk that tests do not cover.
pub open spec fn is_exposed(f: FunctionMetrics) -> bool {
    is_high(risk_of(f)) && match f.coverage {
        Some(c) => is_below_half(c.line_coverage),
        None => false,
    }
}

/// How many functions are exposed.
pub open spec fn count_exposed(functions: Seq<FunctionMetrics>) -> nat
    decreases functions.len(),
{
    if functions.len() == 0 {
        0
    } else {
        count_exposed(functions.drop_last()) + if is_exposed(functions.last()) {
            1nat
        } else {
            0nat
        }
    }
}

/// How far the lines of functions are covered, for those of which it is known.
pub open spec fn known_coverage(functions: Seq<FunctionMetrics>) -> Seq<Ratio>
    decreases functions.len(),
{
    if functions.len() == 0 {
        Seq::empty()
    } else {
        match functions.last().coverage {
            Some(c) => known_coverage(functions.drop_last()).push(c.line_coverage),
            None => known_coverage(functions.drop_last()),
        }
    }
}

/// Whether a score is the mean of a list, as the given function takes it.
pub open spec fn is_mean<M: Fn(&Vec<Ratio>) -> Score>(
    mean: M,
    ratios: Seq<Ratio>,
    score: Score,
) -> bool {
    exists|list: Vec<Ratio>|
        list@ == ratios && #[trigger] call_ensures(mean, (&list,), score)
}

/// The mean of a list.
fn mean_of<M: Fn(&Vec<Ratio>) -> Score>(list: Vec<Ratio>, mean: &M) -> (score: Score)
    requires
        forall|list: Vec<Ratio>| #[trigger] call_requires(*mean, (&list,)),
    ensures
        is_mean(*mean, list@, score),
{
    mean(&list)
}

/// Whether this is what is told of the coverage of a project, with a mean as the
/// given function takes it.
pub open spec fn is_project_coverage<M: Fn(&Vec<Ratio>) -> Score>(
    told: Option<ProjectCoverage>,
    functions: Seq<FunctionMetrics>,
    mean: M,
) -> bool {
    match told {
        Some(c) => {
            &&& known_coverage(functions).len() > 0
            &&& c.available
            &&& is_mean(mean, known_coverage(functions), c.project_line_coverage)
            &&& c.high_risk_uncovered == count_exposed(functions)
        },
        None => known_coverage(functions).len() == 0,
    }
}

/// Tells how far tests cover the project, where that is known of any function.
pub fn build_project_coverage<M: Fn(&Vec<Ratio>) -> Score>(
    functions: &Vec<FunctionMetrics>,
    mean: &M,
) -> (told: Option<ProjectCoverage>)
    requires
        forall|list: Vec<Ratio>| #[trigger] call_requires(*mean, (&list,)),
    ensures
        is_project_coverage(told, functions@, *mean),
{
    let mut known: Vec<Ratio> = Vec::new();
    let mut exposed: usize = 0;
    let ghost all = functions@;
    for i in 0..functions.len()
        invariant
            all == functions@,
            exposed <= i,
            known@ == known_coverage(all.take(i as int)),
            exposed == count_exposed(all.take(i as int)),
    {
        let f = &functions[i];
        proof {
            assert(all.take(i + 1).drop_last() == all.take(i as int));
            assert(all.take(i + 1).last() == all[i as int]);
        }
        if let Some(c) = &f.coverage {
            known.push(c.line_coverage);
            let r = c.line_coverage;
            let low = r.denominator == 0 || (r.numerator < r.denominator && r.numerator
                < r.denominator - r.numerator);
            let bits: u64 = risk_score(f).bits;
            if low && 0x3fe9_9999_9999_999a <= bits && bits <= 0x7ff0_0000_0000_0000 {
                exposed = exposed + 1;
            }
        }
    }
    assert(all.take(functions.len() as int) == all);
    if known.len() == 0 {
        return None;
    }
    let project_line_coverage = mean_of(known, mean);
    Some(ProjectCoverage { available: true, project_line_coverage, high_risk_uncovered: exposed })
}

/// Whether the gap in a function's coverage is told anew, weighed by its risk as the
/// given function weighs it.
pub open spec fn has_weighed_gap<G: Fn(Score, Ratio) -> Score>(
    before: FunctionMetrics,
    after: FunctionMetrics,
    gap: G,
) -> bool {
    match (before.coverage, after.coverage) {
        (Some(x), Some(y)) => {
            &&& call_ensures(gap, (risk_of(before), x.line_coverage), y.risk_coverage_gap)
            &&& y == CoverageMetrics { risk_coverage_gap: y.risk_coverage_gap, ..x }
            &&& after == FunctionMetrics { coverage: after.coverage, ..before }
        },
        (None, None) => after == before,
        _ => false,
    }
}

/// Weighs the gaps in the coverage of functions by their risk.
pub fn update_coverage_gaps<G: Fn(Score, Ratio) -> Score>(
    functions: &mut Vec<FunctionMetrics>,
    gap: &G,
)
    requires
        forall|risk: Score, covered: Ratio| #[trigger] call_requires(*gap, (risk, covered)),
    ensures
        final(functions)@.len() == old(functions)@.len(),
        forall|i: int|
            0 <= i < old(functions)@.len() ==> has_weighed_gap(
                old(functions)@[i],
                #[trigger] final(functions)@[i],
                *gap,
            ),
{
    let ghost before = functions@;
    let n: usize = functions.len();
    for i in 0..n
        invariant
            n == before.len(),
            functions@.len() == before.len(),
            forall|risk: Score, covered: Ratio| #[trigger] call_requires(*gap, (risk, covered)),
            forall|j: int|
                0 <= j < i ==> has_weighed_gap(before[j], #[trigger] functions@[j], *gap),
            forall|j: int| i <= j < n ==> #[trigger] functions@[j] == before[j],
    {
        let risk = risk_score(&functions[i]);
        let mut taken: Option<CoverageMetrics> = None;
        let f = &mut functions[i];
        std::mem::swap(&mut taken, &mut f.coverage);
        if let Some(mut c) = taken {
            c.risk_coverage_gap = gap(risk, c.line_coverage);
            f.coverage = Some(c);
        }
    }
}

} // verus!
