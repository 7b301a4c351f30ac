//! The report: what is told of each function, and of the project.

use crate::score::{Ratio, Score};
use crate::text::views;
use vstd::prelude::*;

verus! {

/// All that is told of one function.
#[derive(Debug)]
pub struct FunctionMetrics {
    pub id: String,
    pub name: String,
    pub file: String,
    pub line: u32,
    pub end_line: u32,
    pub body_hash: String,
    pub cyclomatic_complexity: u32,
    pub cognitive_complexity: u32,
    pub nesting_depth: u32,
    pub lines_of_code: u32,
    pub executable_statements: u32,
    pub is_hollow: bool,
    pub hollow_kind: String,
    pub comment_ratio: Ratio,
    pub placeholder_count: usize,
    pub has_docstring: bool,
    pub documentation_quality: String,
    pub identifier_verbosity: Ratio,
    pub times_modified: usize,
    pub bug_fix_commits: usize,
    pub authors_count: usize,
    pub authors: Option<Vec<String>>,
    pub churn: ChurnDetails,
    pub churn_score: Score,
    pub coverage: Option<CoverageMetrics>,
    pub coupling: CouplingMetrics,
    pub reachability: ReachabilityMetrics,
    pub normalized: Option<NormalizedMetrics>,
    pub risk: Option<RiskMetrics>,
    pub percentile: Option<PercentileMetrics>,
}

/// Metrics scaled to the range from zero to one.
#[derive(Clone, Copy, Debug, PartialEq, Eq, Structural)]
pub struct NormalizedMetrics {
    pub cyclomatic: Score,
    pub churn: Score,
    pub churn_recent: Score,
    pub cognitive: Score,
    pub fan_in: Score,
    pub loc: Score,
    pub authors: Score,
    pub coverage_gap: Option<Score>,
}

/// The risk that a function carries.
#[derive(Debug)]
pub struct RiskMetrics {
    pub base_score: Score,
    pub nesting_penalty: Score,
    pub final_score: Score,
    /// `low`, `medium`, `high` or `critical`.
    pub level: String,
    pub primary_driver: String,
}

/// How a function ranks: which part of the other functions lies below it.
#[derive(Clone, Copy, Debug, PartialEq, Eq, Structural)]
pub struct PercentileMetrics {
    pub risk: Ratio,
    pub churn: Ratio,
    pub cognitive: Ratio,
}

/// The whole report.
#[derive(Debug)]
pub struct Report {
    pub schema_version: String,
    pub analysis: AnalysisMetadata,
    pub scoring_policy: ScoringPolicy,
    pub summary: SummaryStats,
    pub quality: AnalysisQuality,
    pub functions: Vec<FunctionMetrics>,
}

/// How risk is scored.
#[derive(Debug)]
pub struct ScoringPolicy {
    pub weights: Weights,
    pub thresholds: Thresholds,
    pub description: String,
}

/// The weight of each metric in the base score, in hundredths.
#[derive(Clone, Copy, Debug, PartialEq, Eq, Structural)]
pub struct Weights {
    pub cognitive: u32,
    pub cyclomatic: u32,
    pub churn: u32,
    pub churn_recent: u32,
    pub fan_in: u32,
    pub loc: u32,
    pub authors: u32,
    pub coverage_gap: u32,
}

/// The percentile of risk from which each level is given.
#[derive(Clone, Copy, Debug, PartialEq, Eq, Structural)]
pub struct Thresholds {
    pub critical: u32,
    pub high: u32,
    pub medium: u32,
}

/// What was analyzed.
#[derive(Debug)]
pub struct AnalysisMetadata {
    pub repository: String,
    pub commit: String,
    pub branch: String,
    pub timestamp: String,
}

/// How far the analysis can be relied on.
#[derive(Debug)]
pub struct AnalysisQuality {
    pub status: AnalysisStatus,
    pub git: GitAnalysisStatus,
    pub cache: CacheAnalysisStatus,
    pub warnings: Vec<AnalysisWarning>,
    pub skipped_files: Vec<SkippedFile>,
}

/// Whether anything was left out.
#[derive(Clone, Copy, Debug, PartialEq, Eq, Structural)]
pub enum AnalysisStatus {
    Complete,
    Partial,
}

/// What became of the change history.
#[derive(Clone, Copy, Debug, PartialEq, Eq, Structural)]
pub struct GitAnalysisStatus {
    pub available: bool,
    pub partial: bool,
    pub cache_reset: bool,
    pub processed_commits: usize,
}

/// What became of the cache.
#[derive(Clone, Copy, Debug, PartialEq, Eq, Structural)]
pub struct CacheAnalysisStatus {
    pub enabled: bool,
    pub loaded: bool,
    pub saved: bool,
    pub ast_hits: usize,
    pub ast_misses: usize,
}

/// Something that went wrong on the way.
#[derive(Debug)]
pub struct AnalysisWarning {
    pub code: String,
    pub message: String,
}

/// A file that was left out.
#[derive(Debug)]
pub struct SkippedFile {
    pub path: String,
    pub reason: String,
}

/// What is told of the project.
#[derive(Debug)]
pub struct SummaryStats {
    pub total_functions: usize,
    pub project_stats: ProjectStats,
    pub coverage: Option<ProjectCoverage>,
    pub max_values: Option<MaxValues>,
    pub distributions: Option<Distributions>,
}

/// Authors, debt, hotspots and dead code.
#[derive(Debug)]
pub struct ProjectStats {
    pub total_unique_authors: usize,
    pub bus_factor: usize,
    pub tech_debt_density: Ratio,
    pub top_hotspots: Vec<Hotspot>,
    pub dead_code: DeadCodeStats,
}

/// The functions that nothing reaches.
#[derive(Debug)]
pub struct DeadCodeStats {
    pub unreachable_functions: usize,
    pub unreachable_private: usize,
    pub unreachable_export: usize,
    pub unreachable_loc: u128,
    pub safe_to_delete: usize,
    pub functions: Vec<DeadCodeFunction>,
}

/// A function that nothing reaches.
#[derive(Debug)]
pub struct DeadCodeFunction {
    pub id: String,
    pub name: String,
    pub file: String,
    pub line: u32,
    pub lines_of_code: u32,
    pub kind: String,
    pub safe_to_delete: bool,
}

/// A function of high risk.
#[derive(Debug)]
pub struct Hotspot {
    pub id: String,
    pub name: String,
    pub file: String,
    pub line: u32,
    pub risk_score: Score,
    pub churn_score: Score,
    pub cognitive_complexity: u32,
}

/// The largest value of each metric.
#[derive(Clone, Copy, Debug, PartialEq, Eq, Structural)]
pub struct MaxValues {
    pub cyclomatic: u32,
    pub cognitive: u32,
    pub churn: Score,
    pub loc: u32,
}

/// The value at the 95th percentile of each metric.
#[derive(Clone, Copy, Debug, PartialEq, Eq, Structural)]
pub struct Distributions {
    pub risk_p95: Score,
    pub churn_p95: Score,
    pub cognitive_p95: u32,
}

/// The changes that touched a range of lines.
#[derive(Debug)]
pub struct ChurnMetrics {
    pub times_modified: usize,
    pub bug_fix_commits: usize,
    pub authors_count: usize,
    pub authors: Vec<String>,
    pub churn_score: Score,
    pub last_modified: Option<String>,
    pub windows: ChurnWindows,
    pub velocity: String,
}

/// The part of the change history that is told of a function.
#[derive(Debug)]
pub struct ChurnDetails {
    pub score: Score,
    pub times_modified: usize,
    pub last_modified: Option<String>,
    pub windows: ChurnWindows,
    pub velocity: String,
}

/// The changes of the last 7, 30 and 90 days.
#[derive(Clone, Copy, Debug, PartialEq, Eq, Structural)]
pub struct ChurnWindows {
    pub d7: ChurnWindow,
    pub d30: ChurnWindow,
    pub d90: ChurnWindow,
}

/// The changes of some days.
#[derive(Clone, Copy, Debug, PartialEq, Eq, Structural)]
pub struct ChurnWindow {
    pub modifications: usize,
    pub score: Score,
}

/// How far tests cover a function.
#[derive(Debug)]
pub struct CoverageMetrics {
    pub available: bool,
    pub line_coverage: Ratio,
    pub branch_coverage: Option<Ratio>,
    pub covered_by: Vec<String>,
    pub risk_coverage_gap: Score,
}

/// How far tests cover the project.
#[derive(Clone, Copy, Debug, PartialEq, Eq, Structural)]
pub struct ProjectCoverage {
    pub available: bool,
    pub project_line_coverage: Score,
    pub high_risk_uncovered: usize,
}

/// Who calls a function, and whom it calls.
#[derive(Debug)]
pub struct CouplingMetrics {
    pub fan_in: usize,
    pub fan_out: usize,
    pub callers: Vec<String>,
    pub callees: Vec<String>,
    pub instability: Ratio,
}

/// Whether anything reaches a function.
#[derive(Debug)]
pub struct ReachabilityMetrics {
    pub is_reachable: bool,
    pub kind: String,
}

impl ChurnWindow {
    /// No changes.
    pub open spec fn none() -> ChurnWindow {
        ChurnWindow { modifications: 0, score: Score { bits: 0 } }
    }
}

impl ChurnWindows {
    /// No changes.
    pub open spec fn none() -> ChurnWindows {
        ChurnWindows { d7: ChurnWindow::none(), d30: ChurnWindow::none(), d90: ChurnWindow::none() }
    }

    /// No changes at all.
    pub fn empty() -> (w: ChurnWindows)
        ensures
            w == ChurnWindows::none(),
    {
        let window = ChurnWindow { modifications: 0, score: Score::zero() };
        ChurnWindows { d7: window, d30: window, d90: window }
    }
}

impl ChurnDetails {
    /// Whether these are the details of a function without a history.
    pub open spec fn is_none(self) -> bool {
        &&& self.score.bits == 0
        &&& self.times_modified == 0
        &&& self.last_modified is None
        &&& self.windows == ChurnWindows::none()
        &&& self.velocity@ == Seq::<char>::empty()
    }

    /// The details of a function without a history.
    pub fn none() -> (d: ChurnDetails)
        ensures
            d.is_none(),
    {
        ChurnDetails {
            score: Score::zero(),
            times_modified: 0,
            last_modified: None,
            windows: ChurnWindows::empty(),
            velocity: String::new(),
        }
    }
}

/// Whether two optional lists hold the same texts.
pub open spec fn same_list(a: Option<Vec<String>>, b: Option<Vec<String>>) -> bool {
    match (a, b) {
        (Some(x), Some(y)) => x@ == y@,
        (None, None) => true,
        _ => false,
    }
}

/// Whether two functions' coverage is the same.
pub open spec fn same_coverage(a: Option<CoverageMetrics>, b: Option<CoverageMetrics>) -> bool {
    match (a, b) {
        (Some(x), Some(y)) => {
            &&& x.available == y.available
            &&& x.line_coverage == y.line_coverage
            &&& x.branch_coverage == y.branch_coverage
            &&& x.covered_by@ == y.covered_by@
            &&& x.risk_coverage_gap == y.risk_coverage_gap
        },
        (None, None) => true,
        _ => false,
    }
}

/// Whether the same is told of two functions.
pub open spec fn same_function(a: FunctionMetrics, b: FunctionMetrics) -> bool {
    &&& a == FunctionMetrics {
        authors: a.authors,
        coverage: a.coverage,
        coupling: a.coupling,
        ..b
    }
    &&& same_list(a.authors, b.authors)
    &&& same_coverage(a.coverage, b.coverage)
    &&& a.coupling == CouplingMetrics {
        callers: a.coupling.callers,
        callees: a.coupling.callees,
        ..b.coupling
    }
    &&& a.coupling.callers@ == b.coupling.callers@
    &&& a.coupling.callees@ == b.coupling.callees@
}

/// Whether the same is told of two lists of functions.
pub open spec fn same_functions(a: Seq<FunctionMetrics>, b: Seq<FunctionMetrics>) -> bool {
    &&& a.len() == b.len()
    &&& forall|i: int| 0 <= i < a.len() ==> same_function(#[trigger] a[i], b[i])
}

/// Whether two optional lists tell the same texts.
pub open spec fn lists_alike(a: Option<Vec<String>>, b: Option<Vec<String>>) -> bool {
    match (a, b) {
        (Some(x), Some(y)) => views(x@) == views(y@),
        (None, None) => true,
        _ => false,
    }
}

/// Whether two functions' histories read the same.
pub open spec fn churn_alike(a: ChurnDetails, b: ChurnDetails) -> bool {
    &&& a.score == b.score
    &&& a.times_modified == b.times_modified
    &&& match (a.last_modified, b.last_modified) {
        (Some(x), Some(y)) => x@ == y@,
        (None, None) => true,
        _ => false,
    }
    &&& a.windows == b.windows
    &&& a.velocity@ == b.velocity@
}

/// Whether two functions' coverage reads the same.
pub open spec fn coverage_alike(a: Option<CoverageMetrics>, b: Option<CoverageMetrics>) -> bool {
    match (a, b) {
        (Some(x), Some(y)) => {
            &&& x.available == y.available
            &&& x.line_coverage == y.line_coverage
            &&& x.branch_coverage == y.branch_coverage
            &&& views(x.covered_by@) == views(y.covered_by@)
            &&& x.risk_coverage_gap == y.risk_coverage_gap
        },
        (None, None) => true,
        _ => false,
    }
}

/// Whether two functions' coupling reads the same.
pub open spec fn coupling_alike(a: CouplingMetrics, b: CouplingMetrics) -> bool {
    &&& a.fan_in == b.fan_in
    &&& a.fan_out == b.fan_out
    &&& views(a.callers@) == views(b.callers@)
    &&& views(a.callees@) == views(b.callees@)
    &&& a.instability == b.instability
}

/// Whether two functions' risks read the same.
pub open spec fn risk_alike(a: Option<RiskMetrics>, b: Option<RiskMetrics>) -> bool {
    match (a, b) {
        (Some(x), Some(y)) => {
            &&& x.base_score == y.base_score
            &&& x.nesting_penalty == y.nesting_penalty
            &&& x.final_score == y.final_score
            &&& x.level@ == y.level@
            &&& x.primary_driver@ == y.primary_driver@
        },
        (None, None) => true,
        _ => false,
    }
}

/// Whether what is told of two functions reads the same.
pub open spec fn told_alike(a: FunctionMetrics, b: FunctionMetrics) -> bool {
    &&& a.id@ == b.id@
    &&& a.name@ == b.name@
    &&& a.file@ == b.file@
    &&& a.line == b.line
    &&& a.end_line == b.end_line
    &&& a.body_hash@ == b.body_hash@
    &&& a.cyclomatic_complexity == b.cyclomatic_complexity
    &&& a.cognitive_complexity == b.cognitive_complexity
    &&& a.nesting_depth == b.nesting_depth
    &&& a.lines_of_code == b.lines_of_code
    &&& a.executable_statements == b.executable_statements
    &&& a.is_hollow == b.is_hollow
    &&& a.hollow_kind@ == b.hollow_kind@
    &&& a.comment_ratio == b.comment_ratio
    &&& a.placeholder_count == b.placeholder_count
    &&& a.has_docstring == b.has_docstring
    &&& a.documentation_quality@ == b.documentation_quality@
    &&& a.identifier_verbosity == b.identifier_verbosity
    &&& a.times_modified == b.times_modified
    &&& a.bug_fix_commits == b.bug_fix_commits
    &&& a.authors_count == b.authors_count
    &&& lists_alike(a.authors, b.authors)
    &&& churn_alike(a.churn, b.churn)
    &&& a.churn_score == b.churn_score
    &&& coverage_alike(a.coverage, b.coverage)
    &&& coupling_alike(a.coupling, b.coupling)
    &&& a.reachability.is_reachable == b.reachability.is_reachable
    &&& a.reachability.kind@ == b.reachability.kind@
    &&& a.normalized == b.normalized
    &&& risk_alike(a.risk, b.risk)
    &&& a.percentile == b.percentile
}

/// Whether what is told of two lists of functions reads the same.
pub open spec fn all_alike(a: Seq<FunctionMetrics>, b: Seq<FunctionMetrics>) -> bool {
    &&& a.len() == b.len()
    &&& forall|i: int| 0 <= i < a.len() ==> told_alike(#[trigger] a[i], b[i])
}

/// A copy of a list of texts.
pub fn copy_texts(list: &Vec<String>) -> (r: Vec<String>)
    ensures
        r@ == list@,
{
    let mut r: Vec<String> = Vec::new();
    for i in 0..list.len()
        invariant
            r@ == list@.take(i as int),
    {
        r.push(list[i].clone());
    }
    r
}

/// A copy of an optional text.
pub fn copy_text(text: &Option<String>) -> (r: Option<String>)
    ensures
        r == *text,
{
    match text {
        Some(s) => Some(s.clone()),
        None => None,
    }
}

impl FunctionMetrics {
    /// A copy.
    pub fn copy(&self) -> (r: FunctionMetrics)
        ensures
            same_function(r, *self),
    {
        FunctionMetrics {
            id: self.id.clone(),
            name: self.name.clone(),
            file: self.file.clone(),
            line: self.line,
            end_line: self.end_line,
            body_hash: self.body_hash.clone(),
            cyclomatic_complexity: self.cyclomatic_complexity,
            cognitive_complexity: self.cognitive_complexity,
            nesting_depth: self.nesting_depth,
            lines_of_code: self.lines_of_code,
            executable_statements: self.executable_statements,
            is_hollow: self.is_hollow,
            hollow_kind: self.hollow_kind.clone(),
            comment_ratio: self.comment_ratio,
            placeholder_count: self.placeholder_count,
            has_docstring: self.has_docstring,
            documentation_quality: self.documentation_quality.clone(),
            identifier_verbosity: self.identifier_verbosity,
            times_modified: self.times_modified,
            bug_fix_commits: self.bug_fix_commits,
            authors_count: self.authors_count,
            authors: match &self.authors {
                Some(list) => Some(copy_texts(list)),
                None => None,
            },
            churn: ChurnDetails {
                score: self.churn.score,
                times_modified: self.churn.times_modified,
                last_modified: copy_text(&self.churn.last_modified),
                windows: self.churn.windows,
                velocity: self.churn.velocity.clone(),
            },
            churn_score: self.churn_score,
            coverage: match &self.coverage {
                Some(coverage) => Some(
                    CoverageMetrics {
                        available: coverage.available,
                        line_coverage: coverage.line_coverage,
                        branch_coverage: coverage.branch_coverage,
                        covered_by: copy_texts(&coverage.covered_by),
                        risk_coverage_gap: coverage.risk_coverage_gap,
                    },
                ),
                None => None,
            },
            coupling: CouplingMetrics {
                fan_in: self.coupling.fan_in,
                fan_out: self.coupling.fan_out,
                callers: copy_texts(&self.coupling.callers),
                callees: copy_texts(&self.coupling.callees),
                instability: self.coupling.instability,
            },
            reachability: ReachabilityMetrics {
                is_reachable: self.reachability.is_reachable,
                kind: self.reachability.kind.clone(),
            },
            normalized: self.normalized,
            risk: match &self.risk {
                Some(risk) => Some(
                    RiskMetrics {
                        base_score: risk.base_score,
                        nesting_penalty: risk.nesting_penalty,
                        final_score: risk.final_score,
                        level: risk.level.clone(),
                        primary_driver: risk.primary_driver.clone(),
                    },
                ),
                None => None,
            },
            percentile: self.percentile,
        }
    }
}

/// A copy of a list of functions.
pub fn copy_functions(functions: &Vec<FunctionMetrics>) -> (r: Vec<FunctionMetrics>)
    ensures
        same_functions(r@, functions@),
{
    let mut r: Vec<FunctionMetrics> = Vec::new();
    for i in 0..functions.len()
        invariant
            r.len() == i,
            forall|j: int| 0 <= j < i ==> same_function(#[trigger] r@[j], functions@[j]),
    {
        r.push(functions[i].copy());
    }
    r
}

} // verus!
