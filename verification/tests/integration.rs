use uchikomi::cache::AnalysisCache;
use uchikomi::context::{
    collect_git_analysis, configured_bug_fix_patterns, load_coverage_index, metadata_from_head,
    FileRead, GitConfig, HeadCommit, HistoryOutcome, UchikomiConfig,
};
use uchikomi::gather::WorkerAccumulator;
use uchikomi::git::batch::CommitOutcome;
use uchikomi::git::churn::GitAnalyzer;
use uchikomi::git::commits::{
    CommitContent, CommitRecord, DiffFile, FileName, GitBatchMetrics, Hunk,
};
use uchikomi::git::plan::{GitAnalysisContext, HistoryStep};
use uchikomi::metrics::{AnalysisStatus, FunctionMetrics, NormalizedMetrics, Report, Weights};
use uchikomi::registry::LanguageRegistry;
use uchikomi::report::{draft_report, Numbers, RepoContext};
use uchikomi::score::{Ratio, Score};
use uchikomi::scoring::{Arithmetic, Contributions, RiskNumbers};
use uchikomi::table::TextMap;
use uchikomi::worker::{analyze_supported_file, prepare_walk_entry, WalkEntry};

const HEAD: &str = "1111111111111111111111111111111111111111";
const SECOND: &str = "2222222222222222222222222222222222222222";

fn score(value: f64) -> Score {
    Score { bits: value.to_bits() }
}

fn value(score: Score) -> f64 {
    f64::from_bits(score.bits)
}

fn quotient(ratio: Ratio) -> f64 {
    if ratio.denominator == 0 {
        0.0
    } else {
        ratio.numerator as f64 / ratio.denominator as f64
    }
}

fn assert_close(actual: f64, expected: f64) {
    assert!(
        (actual - expected).abs() < 1e-12,
        "expected {expected}, got {actual}"
    );
}

fn normalized(value: f64, cap: f64) -> f64 {
    ((1.0 + value).ln() / (1.0 + cap).ln()).min(1.0)
}

fn part(hundredths: u32) -> f64 {
    hundredths as f64 / 100.0
}

fn risk(n: NormalizedMetrics, w: Weights, depth: u32) -> RiskNumbers {
    let base = part(w.cognitive) * value(n.cognitive)
        + part(w.cyclomatic) * value(n.cyclomatic)
        + part(w.churn) * value(n.churn)
        + part(w.churn_recent) * value(n.churn_recent)
        + part(w.fan_in) * value(n.fan_in)
        + part(w.loc) * value(n.loc)
        + part(w.authors) * value(n.authors)
        + part(w.coverage_gap) * n.coverage_gap.map(value).unwrap_or(0.0);
    let penalty = 1.0 + (depth as f64 / 4.0).powi(2) * 0.20;
    RiskNumbers {
        base_score: score(base),
        nesting_penalty: score(penalty),
        final_score: score(base * penalty * (1.0 + value(n.fan_in) * 0.25)),
    }
}

fn contributions(n: NormalizedMetrics, w: Weights) -> Contributions {
    Contributions {
        cognitive: score(value(n.cognitive) * part(w.cognitive)),
        churn: score(value(n.churn) * part(w.churn)),
        churn_recent: score(value(n.churn_recent) * part(w.churn_recent)),
        fan_in: score(value(n.fan_in) * part(w.fan_in)),
        cyclomatic: score(value(n.cyclomatic) * part(w.cyclomatic)),
        loc: score(value(n.loc) * part(w.loc)),
        authors: score(value(n.authors) * part(w.authors)),
        coverage_gap: score(n.coverage_gap.map(value).unwrap_or(0.0) * part(w.coverage_gap)),
    }
}

fn churn_score(weight: u128, authors: usize) -> Score {
    score(weight as f64 * (authors as f64 + 1.0).log10())
}

struct TestCommit {
    id: &'static str,
    message: &'static str,
    content: fn() -> CommitContent,
}

struct TestRepo {
    files: Vec<(&'static str, String)>,
    /// From the first commit to the last.
    commits: Vec<TestCommit>,
    branch: &'static str,
    patterns: Vec<String>,
    lcov: Option<&'static str>,
}

fn first_index_commit() -> CommitContent {
    CommitContent::Files(vec![
        ("".to_string(), "src".to_string()),
        ("src/".to_string(), "index.ts".to_string()),
    ])
}

fn repo_with(source: &str) -> TestRepo {
    TestRepo {
        files: vec![("src/index.ts", source.to_string())],
        commits: vec![TestCommit {
            id: HEAD,
            message: "initial commit",
            content: first_index_commit,
        }],
        branch: "master",
        patterns: Vec::new(),
        lcov: None,
    }
}

fn outcome(commit: &TestCommit, age: i64) -> CommitOutcome {
    CommitOutcome {
        id: commit.id.to_string(),
        record: Ok(CommitRecord {
            id: commit.id.to_string(),
            email: Some("test@example.com".to_string()),
            name: Some("Test User".to_string()),
            message: Some(commit.message.to_string()),
            timestamp: 1_700_000_000 - age,
            content: (commit.content)(),
        }),
    }
}

fn analyze(
    repo: &TestRepo,
    cache: AnalysisCache,
    sort_by: &str,
    limit: Option<usize>,
) -> (Report, AnalysisCache) {
    let mut warnings = Vec::new();
    let head = repo.commits.last().expect("there should be a commit").id;
    let metadata = metadata_from_head(
        Some(repo.branch.to_string()),
        Some(HeadCommit {
            id: head.to_string(),
            seconds: 1_700_000_000,
        }),
    );
    let read = match repo.lcov {
        Some(text) => FileRead::Content(text.to_string()),
        None => FileRead::Missing,
    };
    let coverage = load_coverage_index(read, "/repo/coverage/lcov.info", "/repo", &mut warnings);
    let mut ctx = RepoContext::new(metadata, true, cache, "/repo".to_string(), coverage);
    let config = UchikomiConfig {
        git: GitConfig {
            bug_fix_patterns: repo.patterns.clone(),
        },
    };
    let patterns = configured_bug_fix_patterns(&config, &mut warnings);
    let context = GitAnalysisContext {
        repo_path: "/repo".to_string(),
        branch: repo.branch.to_string(),
        head_oid: head.to_string(),
    };
    let kept = std::mem::replace(&mut ctx.cache.git_cache, TextMap::new());
    let (mut result, mut step) = GitAnalyzer::start_history(
        kept,
        &ctx.cache.git_metadata,
        &ctx.cache.last_commit_oid,
        &context,
        &patterns,
    )
    .expect("identifiers should be readable");
    if let HistoryStep::CheckAncestor(oid) = step {
        let is_ancestor = repo.commits.iter().any(|commit| commit.id == oid);
        step = GitAnalyzer::ancestor_checked(&mut result, oid, is_ancestor);
    }
    let skipped = match &step {
        HistoryStep::Finished => repo.commits.len(),
        HistoryStep::WalkBehind(oid) => {
            1 + repo
                .commits
                .iter()
                .position(|commit| commit.id == oid)
                .expect("the kept commit should exist")
        }
        _ => 0,
    };
    if !matches!(step, HistoryStep::Finished) {
        let commits = repo.commits[skipped..]
            .iter()
            .rev()
            .map(|commit| outcome(commit, 0))
            .collect::<Vec<_>>();
        let mut batch = GitBatchMetrics::empty();
        GitAnalyzer::merge_batch_metrics(
            &mut batch,
            GitAnalyzer::process_commit_chunk(&commits, &patterns),
        );
        GitAnalyzer::finish_history(&mut result, batch);
    }
    let (git_cache, status) = collect_git_analysis(
        HistoryOutcome::Read(result),
        &mut ctx.cache,
        &mut warnings,
    );

    let registry = LanguageRegistry::new();
    let outputs = repo
        .files
        .iter()
        .filter_map(|(path, content)| {
            let entry = WalkEntry {
                path: format!("/repo/{path}"),
                is_file: true,
            };
            match prepare_walk_entry(Ok(entry), false, "/repo", &registry)? {
                Ok(rel_path) => Some(analyze_supported_file(
                    Ok(content.as_bytes()),
                    rel_path,
                    &registry,
                    &ctx.cache,
                    &git_cache,
                    false,
                    1_700_000_000,
                    &churn_score,
                )),
                Err(output) => Some(output),
            }
        })
        .collect::<Vec<_>>();
    let numbers = Numbers {
        gap: |covered: Ratio| score(1.0 - quotient(covered)),
        thrice: |top: Score, p95: Score| value(top) > 3.0 * value(p95),
        weigh: |risk: Score, covered: Ratio| score(value(risk) * (1.0 - quotient(covered))),
        mean: |list: &Vec<Ratio>| {
            score(list.iter().map(|r| quotient(*r)).sum::<f64>() / list.len() as f64)
        },
        arithmetic: Arithmetic {
            normalize_count: |count: u64, cap: u64| score(normalized(count as f64, cap as f64)),
            normalize_score: |s: Score, cap: Score| score(normalized(value(s), value(cap))),
            risk,
            contributions,
        },
    };
    let mut draft = draft_report(
        ctx,
        git_cache,
        status,
        WorkerAccumulator::gather(outputs),
        warnings,
        sort_by,
        limit,
        &numbers,
    );
    let kept = draft.to_save.take().unwrap_or_else(AnalysisCache::empty);
    (draft.finish(Some(Ok(()))), kept)
}

fn function<'a>(report: &'a Report, name: &str) -> &'a FunctionMetrics {
    report
        .functions
        .iter()
        .find(|function| function.name == name)
        .expect("function should exist")
}

#[test]
fn analyzes_small_git_repository() {
    let repo = repo_with(
        r#"
        function a() {
            if (x) {}
        }

        const b = () => {};
        "#,
    );
    let (report, kept) = analyze(&repo, AnalysisCache::empty(), "file", None);

    assert_eq!(report.schema_version, "0.4.0");
    assert_eq!(report.quality.status, AnalysisStatus::Complete);
    assert!(report.quality.warnings.is_empty());
    assert!(report.quality.skipped_files.is_empty());
    assert!(report.quality.git.available);
    assert_eq!(report.quality.git.processed_commits, 1);
    assert!(report.quality.cache.enabled);
    assert!(!report.quality.cache.loaded);
    assert!(report.quality.cache.saved);
    assert_eq!(report.quality.cache.ast_misses, 1);
    assert_eq!(report.summary.total_functions, 2);
    assert_eq!(report.functions.len(), 2);
    assert!(report.analysis.commit.len() >= 40);
    assert_eq!(report.analysis.timestamp, "2023-11-14T22:13:20+00:00");
    assert_eq!(report.functions[0].name, "a");
    assert_eq!(report.functions[1].name, "b");
    assert!(report.functions.iter().all(|f| f.risk.is_some()));

    let a = function(&report, "a");
    assert_eq!(a.cyclomatic_complexity, 2);
    assert_eq!(a.cognitive_complexity, 1);
    assert_eq!(a.nesting_depth, 1);
    assert!(a.lines_of_code >= 3);
    assert!(a.lines_of_code <= 5);
    let normalized_a = a.normalized.as_ref().expect("a should be normalized");
    assert_close(value(normalized_a.cyclomatic), 1.0);
    assert_close(value(normalized_a.cognitive), 1.0);
    assert_close(value(normalized_a.loc), 1.0);
    let percentile_a = a.percentile.as_ref().expect("a should have percentiles");
    assert_close(quotient(percentile_a.risk) * 100.0, 100.0);
    assert_close(quotient(percentile_a.cognitive) * 100.0, 100.0);
    let risk_a = a.risk.as_ref().expect("a should have a risk");
    assert_eq!(risk_a.level, "critical");
    assert_eq!(risk_a.primary_driver, "cognitive");
    assert_close(value(risk_a.nesting_penalty), 1.0 + 0.20 / 16.0);

    let b = function(&report, "b");
    assert_eq!(b.cyclomatic_complexity, 1);
    assert_eq!(b.cognitive_complexity, 0);
    assert_eq!(b.nesting_depth, 0);
    assert!(b.lines_of_code >= 1);
    assert!(b.lines_of_code <= 2);
    let normalized_b = b.normalized.as_ref().expect("b should be normalized");
    assert_close(
        value(normalized_b.cyclomatic),
        std::f64::consts::LN_2 / 3.0_f64.ln(),
    );
    assert_close(value(normalized_b.cognitive), 0.0);
    assert_close(value(normalized_b.loc), 0.5);
    let percentile_b = b.percentile.as_ref().expect("b should have percentiles");
    assert_close(quotient(percentile_b.risk) * 100.0, 0.0);
    assert_close(quotient(percentile_b.cognitive) * 100.0, 0.0);
    assert_eq!(b.risk.as_ref().map(|risk| risk.level.as_str()), Some("low"));

    let (repeated, _) = analyze(&repo, kept, "file", None);
    assert_eq!(report.analysis.timestamp, repeated.analysis.timestamp);
    assert_ne!(report.analysis.timestamp, "1970-01-01T00:00:00+00:00");
    assert!(repeated.quality.cache.ast_hits > 0);
    assert!(repeated.quality.cache.loaded);
    assert_eq!(repeated.quality.git.processed_commits, 0);
    assert_eq!(
        format!("{:?}", report.functions),
        format!("{:?}", repeated.functions)
    );
}

#[test]
fn reparses_dirty_worktree_instead_of_reusing_head_oid_cache() {
    let mut repo = repo_with("function original() {}\n");
    let (first, kept) = analyze(&repo, AnalysisCache::empty(), "file", None);
    assert!(first.functions.iter().any(|f| f.name == "original"));

    repo.files[0].1 = r#"
        function changed() {
            if (x) {}
            if (y) {}
        }
        "#
    .to_string();
    let (second, _) = analyze(&repo, kept, "file", None);
    assert!(second.functions.iter().any(|f| f.name == "changed"));
    assert!(!second.functions.iter().any(|f| f.name == "original"));
    assert!(second.quality.cache.ast_misses > 0);
}

#[test]
fn reports_partial_analysis_for_parse_errors() {
    let mut repo = repo_with("function valid() {}\n");
    repo.files
        .push(("src/broken.ts", "function broken( {".to_string()));
    let (report, _) = analyze(&repo, AnalysisCache::empty(), "file", None);

    assert_eq!(report.quality.status, AnalysisStatus::Partial);
    assert_eq!(report.summary.total_functions, 1);
    assert!(report
        .quality
        .skipped_files
        .iter()
        .any(|file| file.path == "src/broken.ts"));
    assert_eq!(
        report.quality.skipped_files[0].reason,
        "failed to analyze file: Failed to parse src/broken.ts: syntax errors detected"
    );
}

#[test]
fn honors_sort_and_limit_arguments() {
    let repo = repo_with(
        r#"
        function simple() {}
        function complex() {
            if (a) {}
            if (b) {}
            if (c) {}
        }
        "#,
    );
    let (report, _) = analyze(&repo, AnalysisCache::empty(), "cognitive", Some(1));

    assert_eq!(report.functions.len(), 1);
    assert_eq!(report.functions[0].name, "complex");
}

#[test]
fn propagates_churn_across_renamed_files() {
    let repo = TestRepo {
        files: vec![("src/new.ts", "function renamed() {}\n".to_string())],
        commits: vec![
            TestCommit {
                id: SECOND,
                message: "initial commit",
                content: || {
                    CommitContent::Files(vec![
                        ("".to_string(), "src".to_string()),
                        ("src/".to_string(), "old.ts".to_string()),
                    ])
                },
            },
            TestCommit {
                id: HEAD,
                message: "rename file",
                content: || {
                    CommitContent::Diffs(vec![vec![DiffFile {
                        old_name: FileName::Text("src/old.ts".to_string()),
                        new_name: FileName::Text("src/new.ts".to_string()),
                        renamed: true,
                        hunks: Vec::new(),
                    }]])
                },
            },
        ],
        branch: "master",
        patterns: Vec::new(),
        lcov: None,
    };
    let (report, _) = analyze(&repo, AnalysisCache::empty(), "file", None);
    let function = report
        .functions
        .iter()
        .find(|function| function.file == "src/new.ts" && function.name == "renamed")
        .expect("renamed function should be reported under new path");

    assert!(function.times_modified >= 2);
}

#[test]
fn honors_custom_bug_fix_patterns() {
    let mut repo = repo_with("function ticketSensitive() {}\n");
    repo.patterns = vec!["CL-[0-9]+".to_string()];
    repo.commits[0].message = "CL-123 repair production issue";
    let (report, _) = analyze(&repo, AnalysisCache::empty(), "file", None);
    let function = function(&report, "ticketSensitive");

    assert_eq!(function.bug_fix_commits, 1);
    assert_eq!(function.body_hash.len(), 32);
}

#[test]
fn reports_temporal_churn_coupling_and_reachability() {
    let repo = repo_with(
        r#"
        export function entry() {
            helper();
        }

        function helper() {
            return 1;
        }

        function unused() {
            return 2;
        }
        "#,
    );
    let (report, _) = analyze(&repo, AnalysisCache::empty(), "file", None);
    assert!(report.summary.coverage.is_none());
    let dead_code = &report.summary.project_stats.dead_code;
    assert!(dead_code.unreachable_functions >= 1);
    assert!(dead_code.functions.iter().any(|function| {
        function.name == "unused"
            && function.file == "src/index.ts"
            && function.kind == "unreachable_private"
            && function.safe_to_delete
    }));
    assert_eq!(dead_code.unreachable_private, 1);
    assert_eq!(dead_code.unreachable_export, 0);

    let entry = function(&report, "entry");
    assert_eq!(entry.coupling.fan_out, 1);
    assert_eq!(entry.churn.times_modified, entry.times_modified);
    assert!(entry.churn.last_modified.is_some());
    assert_eq!(entry.reachability.kind, "exported");

    let helper = function(&report, "helper");
    assert_eq!(helper.coupling.fan_in, 1);
    assert_eq!(helper.reachability.kind, "reachable");

    let unused = function(&report, "unused");
    assert_eq!(unused.reachability.kind, "unreachable_private");
}

#[test]
fn applies_lcov_coverage_to_function_ranges() {
    let mut repo = repo_with(
        r#"
        function covered() {
            return 1;
        }
        "#,
    );
    repo.lcov = Some(
        "SF:src/index.ts\nDA:2,1\nDA:3,0\nDA:4,1\nBRDA:3,0,0,0\nBRDA:3,0,1,-\nend_of_record\n",
    );
    let (report, _) = analyze(&repo, AnalysisCache::empty(), "file", None);
    let coverage = report
        .summary
        .coverage
        .as_ref()
        .expect("project coverage should be available");
    assert!(coverage.available);
    assert_close(value(coverage.project_line_coverage), 2.0 / 3.0);

    let function = function(&report, "covered");
    let coverage = function
        .coverage
        .as_ref()
        .expect("function coverage should be available");
    assert!(coverage.available);
    assert!(quotient(coverage.line_coverage) > 0.0);
    assert!(value(coverage.risk_coverage_gap) >= 0.0);
    assert_eq!(coverage.line_coverage, Ratio { numerator: 2, denominator: 3 });
    assert_eq!(coverage.branch_coverage, Some(Ratio { numerator: 1, denominator: 2 }));
    let risk = function.risk.as_ref().expect("there should be a risk");
    assert_close(
        value(coverage.risk_coverage_gap),
        value(risk.final_score) * (1.0 - 2.0 / 3.0),
    );
}

#[test]
fn resets_git_cache_when_branch_changes() {
    let mut repo = repo_with("function branchSensitive() {}\n");
    let (first, kept) = analyze(&repo, AnalysisCache::empty(), "file", None);
    assert_eq!(first.quality.git.processed_commits, 1);

    repo.branch = "other";
    let (report, _) = analyze(&repo, kept, "file", None);
    assert!(report.quality.git.cache_reset);
}

#[test]
fn analyzes_rust_and_c_repository() {
    let repo = TestRepo {
        files: vec![
            (
                "src/helper.c",
                r#"
        int add(int a, int b) {
            if (a > 0) {
                return a + b;
            }
            return b;
        }
    "#
                .to_string(),
            ),
            (
                "src/main.rs",
                r#"
        fn main() {
            let x = Some(1);
            if let Some(y) = x {
                println!("{}", y);
            }
            match x {
                Some(_) => println!("ok"),
                None => (),
            }
        }
    "#
                .to_string(),
            ),
        ],
        commits: vec![TestCommit {
            id: HEAD,
            message: "initial commit",
            content: || {
                CommitContent::Files(vec![
                    ("".to_string(), "src".to_string()),
                    ("src/".to_string(), "helper.c".to_string()),
                    ("src/".to_string(), "main.rs".to_string()),
                ])
            },
        }],
        branch: "master",
        patterns: Vec::new(),
        lcov: None,
    };
    let (report, _) = analyze(&repo, AnalysisCache::empty(), "file", None);

    assert_eq!(report.summary.total_functions, 2);

    let rust_func = report
        .functions
        .iter()
        .find(|f| f.file == "src/main.rs")
        .expect("rust function should exist");
    assert_eq!(rust_func.name, "main");
    assert!(rust_func.cognitive_complexity >= 2);

    let c_func = report
        .functions
        .iter()
        .find(|f| f.file == "src/helper.c")
        .expect("c function should exist");
    assert_eq!(c_func.name, "add");
    assert_eq!(c_func.cyclomatic_complexity, 2);
}

#[test]
fn treats_rust_test_files_as_test_only_reachable() {
    let repo = TestRepo {
        files: vec![(
            "tests/integration.rs",
            r#"
        #[test]
        fn verifies_public_behavior() {
            assert_eq!(1 + 1, 2);
        }
        "#
            .to_string(),
        )],
        commits: vec![TestCommit {
            id: HEAD,
            message: "initial commit",
            content: || {
                CommitContent::Files(vec![
                    ("".to_string(), "tests".to_string()),
                    ("tests/".to_string(), "integration.rs".to_string()),
                ])
            },
        }],
        branch: "master",
        patterns: Vec::new(),
        lcov: None,
    };
    let (report, _) = analyze(&repo, AnalysisCache::empty(), "file", None);
    let function = function(&report, "verifies_public_behavior");

    assert!(function.reachability.is_reachable);
    assert_eq!(function.reachability.kind, "test_only");
    assert!(report
        .summary
        .project_stats
        .dead_code
        .functions
        .iter()
        .all(|function| function.name != "verifies_public_behavior"));
}

#[test]
fn only_new_commits_are_read_again() {
    let mut repo = repo_with("function a() {}\n");
    repo.commits[0].id = SECOND;
    let (_, kept) = analyze(&repo, AnalysisCache::empty(), "file", None);
    repo.commits.push(TestCommit {
        id: HEAD,
        message: "fix the function",
        content: || {
            CommitContent::Diffs(vec![vec![DiffFile {
                old_name: FileName::Text("src/index.ts".to_string()),
                new_name: FileName::Text("src/index.ts".to_string()),
                renamed: false,
                hunks: vec![Hunk { new_start: 1, new_lines: 1 }],
            }]])
        },
    });
    let (incremental, _) = analyze(&repo, kept, "file", None);
    let (whole, _) = analyze(&repo, AnalysisCache::empty(), "file", None);
    assert_eq!(incremental.quality.git.processed_commits, 1);
    assert_eq!(whole.quality.git.processed_commits, 2);
    assert!(!incremental.quality.git.cache_reset);
    let a = function(&incremental, "a");
    assert_eq!(a.times_modified, 2);
    assert_eq!(a.bug_fix_commits, 1);
    assert_eq!(
        format!("{:?}", whole.functions),
        format!("{:?}", incremental.functions)
    );
}

#[test]
fn an_empty_repository_is_told_as_such() {
    let mut repo = repo_with("");
    repo.files.clear();
    let (report, kept) = analyze(&repo, AnalysisCache::empty(), "nonsense", None);
    assert_eq!(report.summary.total_functions, 0);
    assert!(report.summary.max_values.is_none());
    assert!(report.summary.distributions.is_none());
    assert_eq!(report.quality.status, AnalysisStatus::Partial);
    assert_eq!(report.quality.warnings.len(), 1);
    assert_eq!(report.quality.warnings[0].code, "no_functions_found");
    assert_eq!(report.quality.warnings[0].message, "No functions found to analyze.");
    assert!(!kept.has_entries());
}

#[test]
fn an_unsupported_sort_falls_back_to_file_order() {
    let repo = repo_with("function b() {}\nfunction a() {}\n");
    let (report, _) = analyze(&repo, AnalysisCache::empty(), "nonsense", None);
    assert_eq!(report.functions[0].name, "a");
    assert_eq!(report.functions[1].name, "b");
    assert_eq!(report.quality.warnings[0].code, "unsupported_sort");
    assert_eq!(
        report.quality.warnings[0].message,
        "Unsupported sort field 'nonsense'. Falling back to file order."
    );
}

#[test]
fn a_lone_function_is_critical() {
    let repo = repo_with("function lone() {}\n");
    let (report, _) = analyze(&repo, AnalysisCache::empty(), "file", None);
    let lone = function(&report, "lone");
    assert_eq!(lone.risk.as_ref().map(|risk| risk.level.as_str()), Some("critical"));
    let percentile = lone.percentile.as_ref().expect("there should be percentiles");
    assert_close(quotient(percentile.risk) * 100.0, 100.0);
}

#[test]
fn a_riskier_function_never_ranks_lower() {
    let repo = repo_with(
        "function a() {}\nfunction b() { if (x) {} }\nfunction c() { if (x) { if (y) {} } }\n",
    );
    let (report, _) = analyze(&repo, AnalysisCache::empty(), "risk", None);
    let names = report.functions.iter().map(|f| f.name.as_str()).collect::<Vec<_>>();
    assert_eq!(names, vec!["c", "b", "a"]);
    let ranks = report
        .functions
        .iter()
        .map(|f| quotient(f.percentile.as_ref().expect("there should be percentiles").risk))
        .collect::<Vec<_>>();
    assert_eq!(ranks, vec![1.0, 0.5, 0.0]);
    let levels = report
        .functions
        .iter()
        .map(|f| f.risk.as_ref().expect("there should be a risk").level.as_str())
        .collect::<Vec<_>>();
    assert_eq!(levels, vec!["critical", "medium", "low"]);
}

#[test]
fn outliers_are_capped_at_the_99th_percentile() {
    let mut source = String::new();
    for i in 0..199 {
        source.push_str(&format!("function f{i}() {{ if (x) {{}} }}\n"));
    }
    source.push_str("function god() { ");
    for _ in 0..50 {
        source.push_str("if (x) {} ");
    }
    source.push_str("}\n");
    let (report, _) = analyze(&repo_with(&source), AnalysisCache::empty(), "file", None);
    let max = report.summary.max_values.expect("there should be largest values");
    assert_eq!(max.cognitive, 50);
    let plain = function(&report, "f0").normalized.expect("it should be normalized");
    assert_close(value(plain.cognitive), 1.0);
    let god = function(&report, "god").normalized.expect("it should be normalized");
    assert_close(value(god.cognitive), 1.0);
    let p95 = report.summary.distributions.expect("there should be distributions");
    assert_eq!(p95.cognitive_p95, 1);
}

#[test]
fn two_runs_on_the_same_repository_give_the_same_report() {
    let mut repo = repo_with("function a() { if (x) { b(); } }\nfunction b() {}\n");
    repo.files.push(("src/broken.ts", "function ( {".to_string()));
    repo.lcov = Some("SF:src/index.ts\nDA:1,1\nDA:2,0\nend_of_record\n");
    let (first, kept) = analyze(&repo, AnalysisCache::empty(), "nonsense", Some(1));
    let (second, kept_too) = analyze(&repo, AnalysisCache::empty(), "nonsense", Some(1));
    assert_eq!(first.functions.len(), 1);
    assert_eq!(first.quality.warnings.len(), 1);
    assert_eq!(first.quality.skipped_files.len(), 1);
    assert_eq!(format!("{first:?}"), format!("{second:?}"));

    let (third, _) = analyze(&repo, kept, "nonsense", Some(1));
    let (fourth, _) = analyze(&repo, kept_too, "nonsense", Some(1));
    assert_eq!(third.quality.cache.ast_hits, 1);
    assert_eq!(format!("{third:?}"), format!("{fourth:?}"));
}

#[test]
fn reading_only_new_commits_tells_the_same_metrics_as_reading_all() {
    let mut repo = repo_with("function a() { if (x) { b(); } }\nfunction b() {}\n");
    let (_, kept) = analyze(&repo, AnalysisCache::empty(), "risk", None);
    repo.commits.push(TestCommit {
        id: SECOND,
        message: "fix: a",
        content: first_index_commit,
    });
    let (incremental, _) = analyze(&repo, kept, "risk", None);
    let (whole, _) = analyze(&repo, AnalysisCache::empty(), "risk", None);
    assert_eq!(incremental.quality.git.processed_commits, 1);
    assert_eq!(whole.quality.git.processed_commits, 2);
    assert_eq!(function(&whole, "a").times_modified, 2);
    assert_eq!(function(&whole, "a").bug_fix_commits, 1);
    assert_eq!(format!("{:?}", incremental.functions), format!("{:?}", whole.functions));
    assert_eq!(format!("{:?}", incremental.summary), format!("{:?}", whole.summary));
}
