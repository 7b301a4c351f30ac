use uchikomi::ast::parser::AstParser;
use uchikomi::ast::rust::RustSupport;
use uchikomi::cache::{AnalysisCache, FileCacheEntry};
use uchikomi::coupling::{apply_coupling_and_reachability, function_ref, is_test_file};
use uchikomi::gather::WorkerAccumulator;
use uchikomi::metrics::{
    AnalysisStatus, CoverageMetrics, FunctionMetrics, GitAnalysisStatus, RiskMetrics,
};
use uchikomi::ranking::{apply_function_limit, sort_functions, top_hotspots, SortKey};
use uchikomi::registry::LanguageRegistry;
use uchikomi::report::build_quality;
use uchikomi::score::{Ratio, Score};
use uchikomi::scoring::compute_scoring_context;
use uchikomi::stats::{
    build_dead_code_stats, build_project_coverage, tech_debt_density, update_coverage_gaps,
};
use uchikomi::table::TextMap;
use uchikomi::worker::{analyze_supported_file, CacheStats, WorkerOutput};

fn score(value: f64) -> Score {
    Score { bits: value.to_bits() }
}

fn value(score: Score) -> f64 {
    f64::from_bits(score.bits)
}

fn functions_in(source: &str, file: &str) -> Vec<FunctionMetrics> {
    AstParser::analyze_source(source, file, &RustSupport).expect("source should parse")
}

fn with_risk(mut function: FunctionMetrics, final_score: f64) -> FunctionMetrics {
    function.risk = Some(RiskMetrics {
        base_score: score(0.0),
        nesting_penalty: score(1.0),
        final_score: score(final_score),
        level: String::new(),
        primary_driver: String::new(),
    });
    function
}

fn with_coverage(mut function: FunctionMetrics, covered: u128, lines: u128) -> FunctionMetrics {
    function.coverage = Some(CoverageMetrics {
        available: true,
        line_coverage: Ratio { numerator: covered, denominator: lines },
        branch_coverage: None,
        covered_by: Vec::new(),
        risk_coverage_gap: score(0.0),
    });
    function
}

fn names(functions: &[FunctionMetrics]) -> Vec<&str> {
    functions.iter().map(|f| f.name.as_str()).collect()
}

#[test]
fn words_name_sort_keys() {
    for (word, key) in [
        ("file", SortKey::Location),
        ("location", SortKey::Location),
        ("churn", SortKey::Churn),
        ("churn_score", SortKey::Churn),
        ("risk", SortKey::Risk),
        ("risk_score", SortKey::Risk),
        ("cognitive", SortKey::Cognitive),
        ("cognitive_complexity", SortKey::Cognitive),
        ("cyclomatic", SortKey::Cyclomatic),
        ("cyclomatic_complexity", SortKey::Cyclomatic),
        ("loc", SortKey::LinesOfCode),
        ("lines_of_code", SortKey::LinesOfCode),
    ] {
        assert_eq!(SortKey::from_word(word), Some(key));
    }
    assert_eq!(SortKey::from_word("Risk"), None);
}

#[test]
fn functions_are_sorted_by_what_is_asked_for() {
    let source = "fn c() { if x {} }\nfn a() {\n}\nfn b() { if x { if y {} } }\n";
    let sorted = |word: &str, reverse: bool| {
        let mut list = functions_in(source, "m.rs");
        if reverse {
            list.reverse();
        }
        let mut warnings = Vec::new();
        sort_functions(&mut list, word, &mut warnings);
        assert!(warnings.is_empty());
        names(&list).join(" ")
    };
    for reverse in [false, true] {
        assert_eq!(sorted("file", reverse), "a b c");
        assert_eq!(sorted("cognitive", reverse), "b c a");
        assert_eq!(sorted("cyclomatic", reverse), "b c a");
        assert_eq!(sorted("loc", reverse), "a b c");
        assert_eq!(sorted("risk", reverse), "a b c");
        assert_eq!(sorted("churn", reverse), "a b c");
    }
}

#[test]
fn a_limit_keeps_the_first() {
    let mut list = functions_in("fn a() {}\nfn b() {}\n", "m.rs");
    apply_function_limit(&mut list, None);
    apply_function_limit(&mut list, Some(5));
    assert_eq!(list.len(), 2);
    apply_function_limit(&mut list, Some(1));
    assert_eq!(names(&list), vec!["a"]);
    apply_function_limit(&mut list, Some(0));
    assert!(list.is_empty());
}

#[test]
fn hotspots_are_the_five_riskiest() {
    let list = functions_in(
        "fn a() {}\nfn b() {}\nfn c() {}\nfn d() {}\nfn e() {}\nfn f() {}\n",
        "m.rs",
    )
    .into_iter()
    .zip([0.1, 0.9, 0.5, 0.5, 0.7, 0.2])
    .map(|(function, risk)| with_risk(function, risk))
    .collect();
    let hotspots = top_hotspots(&list);
    let told = hotspots
        .iter()
        .map(|h| (h.name.as_str(), value(h.risk_score)))
        .collect::<Vec<_>>();
    assert_eq!(told, vec![("b", 0.9), ("e", 0.7), ("c", 0.5), ("d", 0.5), ("f", 0.2)]);
}

#[test]
fn callers_and_callees_mirror_each_other() {
    let mut list = functions_in(
        "fn main() { helper(); }\nfn helper() { helper(); }\npub fn api() {}\nfn dead() {}\n",
        "m.rs",
    );
    apply_coupling_and_reachability(&mut list);
    assert_eq!(function_ref(&list[0]), "m.rs:main");
    assert_eq!(list[0].coupling.callees, vec!["m.rs:helper".to_string()]);
    assert_eq!(list[0].coupling.instability, Ratio { numerator: 1, denominator: 1 });
    assert_eq!(list[1].coupling.callers, vec!["m.rs:main".to_string()]);
    assert_eq!((list[1].coupling.fan_in, list[1].coupling.fan_out), (1, 0));
    let kinds = list
        .iter()
        .map(|f| f.reachability.kind.as_str())
        .collect::<Vec<_>>();
    assert_eq!(kinds, vec!["reachable", "reachable", "exported", "unreachable_private"]);

    let dead = build_dead_code_stats(&list);
    assert_eq!(dead.unreachable_functions, 1);
    assert_eq!(dead.unreachable_private, 1);
    assert_eq!(dead.unreachable_export, 0);
    assert_eq!(dead.unreachable_loc, 1);
    assert_eq!(dead.safe_to_delete, 1);
    assert_eq!(dead.functions[0].name, "dead");
    assert!(dead.functions[0].safe_to_delete);
}

#[test]
fn test_files_are_recognized() {
    for (path, expected) in [
        ("a/tests/b.rs", true),
        ("a_test.rs", true),
        ("a.test.ts", true),
        ("a.spec.ts", true),
        ("tests/b.rs", false),
        ("a_test.c", false),
    ] {
        let list = functions_in("fn a() {}", path);
        assert_eq!(is_test_file(&list[0]), expected, "{path}");
    }
}

#[test]
fn debt_is_complexity_per_line() {
    let list = functions_in("fn a() {\n    if x {}\n}\nfn b() {}\n", "m.rs");
    assert_eq!(
        tech_debt_density(&list),
        Ratio { numerator: 4, denominator: 4 }
    );
    assert_eq!(
        tech_debt_density(&Vec::new()),
        Ratio { numerator: 0, denominator: 0 }
    );
}

#[test]
fn exposed_functions_are_counted() {
    let mean = |list: &Vec<Ratio>| {
        let sum: f64 = list
            .iter()
            .map(|r| r.numerator as f64 / r.denominator as f64)
            .sum();
        score(sum / list.len() as f64)
    };
    let one = || functions_in("fn a() {}", "m.rs").remove(0);
    assert!(build_project_coverage(&vec![one()], &mean).is_none());
    let list = vec![
        with_coverage(with_risk(one(), 0.80), 1, 4),
        with_coverage(with_risk(one(), 0.79), 1, 4),
        with_coverage(with_risk(one(), 0.95), 2, 4),
        with_coverage(one(), 0, 4),
        with_risk(one(), 0.95),
    ];
    let told = build_project_coverage(&list, &mean).expect("coverage should be known");
    assert!(told.available);
    assert_eq!(told.high_risk_uncovered, 1);
    assert_eq!(value(told.project_line_coverage), 0.25);
}

#[test]
fn gaps_are_weighed_by_risk() {
    let one = || functions_in("fn a() {}", "m.rs").remove(0);
    let mut list = vec![with_coverage(with_risk(one(), 0.5), 1, 4), with_risk(one(), 0.5)];
    update_coverage_gaps(&mut list, &|risk: Score, covered: Ratio| {
        score(value(risk) * (1.0 - covered.numerator as f64 / covered.denominator as f64))
    });
    let gap = list[0].coverage.as_ref().map(|c| value(c.risk_coverage_gap));
    assert_eq!(gap, Some(0.375));
    assert!(list[1].coverage.is_none());
}

#[test]
fn quality_is_complete_only_if_nothing_is_missing() {
    let git = |partial| GitAnalysisStatus {
        available: true,
        partial,
        cache_reset: false,
        processed_commits: 3,
    };
    let stats = CacheStats { hits: 1, misses: 2 };
    let quality = build_quality(git(false), true, false, true, stats, Vec::new(), Vec::new());
    assert_eq!(quality.status, AnalysisStatus::Complete);
    assert_eq!(quality.cache.ast_hits, 1);
    assert_eq!(quality.cache.ast_misses, 2);
    assert!(quality.cache.enabled && !quality.cache.loaded && quality.cache.saved);
    let quality = build_quality(git(true), true, false, true, stats, Vec::new(), Vec::new());
    assert_eq!(quality.status, AnalysisStatus::Partial);
}

fn analyzed(path: &str, source: &[u8], cache: &AnalysisCache) -> WorkerOutput {
    analyze_supported_file(
        Ok(source),
        path.to_string(),
        &LanguageRegistry::new(),
        cache,
        &TextMap::new(),
        false,
        0,
        &|_weight: u128, _authors: usize| score(0.0),
    )
}

#[test]
fn a_cached_file_is_told_alike() {
    let source = b"fn a() { if x { b(); } }\n/// B.\nfn b() {}\n";
    let first = analyzed("m.rs", source, &AnalysisCache::empty());
    assert_eq!((first.cache_hit, first.cache_miss), (0, 1));
    let (path, entry) = first.cache_entry.expect("the file should be kept");
    let mut cache = AnalysisCache::empty();
    cache.files.insert(path, entry);
    let second = analyzed("m.rs", source, &cache);
    assert_eq!((second.cache_hit, second.cache_miss), (1, 0));
    assert_eq!(
        format!("{:?}", first.functions),
        format!("{:?}", second.functions)
    );
    let changed = analyzed("m.rs", b"fn c() {}", &cache);
    assert_eq!((changed.cache_hit, changed.cache_miss), (0, 1));
    assert_eq!(names(&changed.functions), vec!["c"]);
}

#[test]
fn the_content_decides_whether_a_file_is_cached() {
    let mut cache = AnalysisCache::empty();
    cache.files.insert(
        "m.rs".to_string(),
        FileCacheEntry {
            content_hash: "0".to_string(),
            functions: functions_in("fn stale() {}", "m.rs"),
        },
    );
    let output = analyzed("m.rs", b"fn fresh() {}", &cache);
    assert_eq!(names(&output.functions), vec!["fresh"]);
    assert_eq!((output.cache_hit, output.cache_miss), (0, 1));
}

#[test]
fn parts_are_gathered_as_the_whole() {
    let none = AnalysisCache::empty();
    let outputs = || {
        vec![
            analyzed("a.rs", b"fn a() {}", &none),
            analyzed("b.rs", b"fn broken( {", &none),
            analyzed("c.rs", b"fn c() {}", &none),
        ]
    };
    let whole = WorkerAccumulator::gather(outputs());
    let mut rest = outputs();
    let mut parts = WorkerAccumulator::new();
    parts.absorb(rest.remove(0));
    parts.merge(WorkerAccumulator::gather(rest));
    for acc in [&whole, &parts] {
        assert_eq!(names(&acc.functions), vec!["a", "c"]);
        assert_eq!(acc.cache_entries.len(), 2);
        assert_eq!(acc.active_paths.len(), 3);
        assert_eq!(acc.skipped_files.len(), 1);
        assert_eq!(acc.skipped_files[0].path, "b.rs");
        assert_eq!(acc.cache_stats(), CacheStats { hits: 0, misses: 3 });
    }
}

#[test]
fn the_same_source_is_always_told_alike() {
    let source = "/// Adds.\npub fn add(left: u32, right: u32) -> u32 { left + right }\n";
    let first = functions_in(source, "m.rs");
    let second = functions_in(source, "m.rs");
    assert_eq!(format!("{first:?}"), format!("{second:?}"));
    assert!(first[0].has_docstring);
    assert_eq!(first[0].documentation_quality, "adequate");
}

#[test]
fn what_scores_rest_on_ignores_the_order_of_functions() {
    let source = "fn a() { if x { if y {} } }\nfn b() {}\nfn c() { if x {} }\n";
    let mut functions = functions_in(source, "src/lib.rs");
    let thrice = |top: Score, p95: Score| value(top) > 3.0 * value(p95);
    let there = compute_scoring_context(&functions, &thrice);
    functions.rotate_left(1);
    let back = compute_scoring_context(&functions, &thrice);
    assert_eq!(there.cog_vals, vec![0, 1, 3]);
    assert_eq!(back.cog_vals, vec![0, 1, 3]);
    assert_eq!(there.max_values, back.max_values);
    assert_eq!(there.max_values.cognitive, 3);
    assert_eq!(there.caps, back.caps);
    assert_eq!(there.churn_vals, back.churn_vals);
    assert_eq!(there.p95_idx, back.p95_idx);
    assert_eq!(there.p95_idx, 2);
}
