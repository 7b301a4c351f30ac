use uchikomi::ast::quality::{count_lines, count_placeholders, documentation_quality, hollow_kind};
use uchikomi::cache::{AnalysisCache, CacheManager, CacheRead, GitCacheEntry, LineChange};
use uchikomi::context::{
    collect_git_analysis, config_content, configured_bug_fix_patterns, load_analysis_cache,
    load_config, load_coverage_index, metadata_from_head, unknown_repository_metadata, FileRead,
    GitConfig, HeadCommit, HistoryOutcome, UchikomiConfig,
};
use uchikomi::coverage::{parse_branch_coverage, parse_lcov, parse_line_coverage};
use uchikomi::digest::{digest_text, stable_content_hash, stable_hash_hex};
use uchikomi::error::UchikomiError;
use uchikomi::order::{reversed, stable_sort, text_at_most};
use uchikomi::path::{extension, join_path, normalize_coverage_path, strip_base};
use uchikomi::registry::LanguageRegistry;
use uchikomi::score::{CountOrder, Ratio, Score, ScoreOrder};
use uchikomi::scoring::{
    default_scoring_policy, percentile_index, primary_driver, risk_level, Contributions,
};
use uchikomi::table::{sort_and_dedup, TextMap, TextSet};
use uchikomi::worker::{
    analyze_supported_file, prepare_walk_entry, relative_path_string, AnalysisWorker, WalkEntry,
};

fn chars(text: &str) -> Vec<char> {
    text.chars().collect()
}

fn texts(list: &[&str]) -> Vec<String> {
    list.iter().map(|text| text.to_string()).collect()
}

fn score(value: f64) -> Score {
    Score { bits: value.to_bits() }
}

#[test]
fn digests_are_written_in_thirty_two_digits() {
    assert_eq!(digest_text(0), "00000000000000000000000000000000");
    assert_eq!(digest_text(0xabc), "00000000000000000000000000000abc");
    assert_eq!(digest_text(u128::MAX), "ffffffffffffffffffffffffffffffff");
}

#[test]
fn digests_are_those_of_xxh3() {
    let empty: [u8; 0] = [];
    assert_eq!(stable_hash_hex(&empty), "99aa06d3014798d86001c324468d497f");
    let expected = format!("{:032x}", xxhash_rust::xxh3::xxh3_128(b"fn a() {}"));
    assert_eq!(stable_hash_hex(b"fn a() {}"), expected);
    assert_eq!(stable_content_hash(b"fn a() {}"), expected);
    assert_ne!(stable_hash_hex(b"fn b() {}"), expected);
}

#[test]
fn errors_say_what_they_are() {
    let cases = [
        (UchikomiError::ParseError("x".to_string()), "Parse error: x"),
        (UchikomiError::GitError("x".to_string()), "Git error: x"),
        (UchikomiError::IoError("x".to_string()), "IO error: x"),
        (UchikomiError::CacheError("x".to_string()), "Cache error: x"),
        (
            UchikomiError::SerializationError("x".to_string()),
            "Serialization error: x",
        ),
        (UchikomiError::Other("x".to_string()), "Error: x"),
    ];
    for (error, expected) in cases {
        assert_eq!(error.message(), expected);
        assert_eq!(error.into_cause(), "x");
    }
}

#[test]
fn outside_errors_are_taken_over_with_their_words() {
    let git = git2::Oid::from_str("no identifier").expect_err("no identifier is none");
    let words = git.to_string();
    let taken = UchikomiError::from(git);
    assert!(matches!(&taken, UchikomiError::GitError(text) if *text == words));

    let io = std::io::Error::new(std::io::ErrorKind::Other, "disk on fire");
    let taken = UchikomiError::from(io);
    assert!(matches!(&taken, UchikomiError::IoError(text) if text == "disk on fire"));

    let taken = UchikomiError::from(anyhow::Error::msg("something else"));
    assert!(matches!(&taken, UchikomiError::Other(text) if text == "something else"));
}

#[test]
fn what_was_saved_is_loaded() {
    let manager = CacheManager::new("/repo");
    assert_eq!(manager.cache_path(), "/repo/.uchikomi/cache.bin");
    let bytes = manager.save(&vec![1, 2, 3]);
    assert_eq!(bytes, b"CHRN\x02\x00\x00\x00\x01\x02\x03");
    let written = bincode::serialize(&(*b"CHRN", 2u32)).expect("it should be written");
    assert_eq!(manager.save(&Vec::new()), written);
    let cache = AnalysisCache {
        last_commit_oid: Some("c".to_string()),
        ..AnalysisCache::empty()
    };
    let read = CacheRead::Content { bytes: &bytes, decoded: Ok(cache) };
    let loaded = manager.load(read).expect("it should load");
    assert_eq!(loaded.last_commit_oid.as_deref(), Some("c"));
    let none = manager.load(CacheRead::Missing).expect("it should load");
    assert!(!none.has_entries());
}

#[test]
fn other_formats_are_refused() {
    let manager = CacheManager::new("/repo");
    for bytes in [
        b"CHRN\x01\x00\x00\x00".to_vec(),
        b"CHRX\x02\x00\x00\x00".to_vec(),
    ] {
        let read = CacheRead::Content { bytes: &bytes, decoded: Ok(AnalysisCache::empty()) };
        match manager.load(read) {
            Err(err) => assert_eq!(err.message(), "Cache error: Unsupported cache format"),
            Ok(_) => panic!("it should be refused"),
        }
    }
}

#[test]
fn a_cache_that_cannot_be_decoded_is_told_in_the_words_of_the_decoder() {
    let manager = CacheManager::new("/repo");
    for bytes in [b"CHRN\x02\x00\x00".to_vec(), b"CHRX\x01".to_vec(), Vec::new()] {
        let words = bincode::deserialize::<([u8; 4], u32)>(&bytes)
            .expect_err("it is too short")
            .to_string();
        let read = CacheRead::Content { bytes: &bytes, decoded: Err(words.clone()) };
        match manager.load(read) {
            Err(err) => assert_eq!(err.into_cause(), words),
            Ok(_) => panic!("it should be refused"),
        }
    }
    match manager.load(CacheRead::Failed("denied".to_string())) {
        Err(err) => assert_eq!(err.message(), "IO error: denied"),
        Ok(_) => panic!("it should be refused"),
    }
}

#[test]
fn a_renewed_cache_knows_its_commit() {
    let cache = AnalysisCache::empty();
    assert!(!cache.has_entries());
    let cache = cache.renewed(TextMap::new(), TextMap::new(), "abc");
    assert_eq!(cache.last_commit_oid.as_deref(), Some("abc"));
    assert!(cache.has_entries());
    let cache = cache.renewed(TextMap::new(), TextMap::new(), "");
    assert_eq!(cache.last_commit_oid, None);
    assert!(!cache.has_entries());
}

#[test]
fn extensions_are_those_of_file_names() {
    assert_eq!(extension("src/main.rs").as_deref(), Some("rs"));
    assert_eq!(extension("a/b.test.ts").as_deref(), Some("ts"));
    assert_eq!(extension("dir.d/file"), None);
    assert_eq!(extension(".gitignore"), None);
    assert_eq!(extension("a/.."), None);
    assert_eq!(extension("file.").as_deref(), Some(""));
    assert_eq!(extension("src/x.c/").as_deref(), Some("c"));
    assert_eq!(extension(""), None);
}

#[test]
fn paths_are_stripped_by_component() {
    assert_eq!(strip_base("/repo/src/a.ts", "/repo").as_deref(), Some("src/a.ts"));
    assert_eq!(strip_base("/repo//src/./a.ts", "/repo/").as_deref(), Some("src/./a.ts"));
    assert_eq!(strip_base("/repository/a.ts", "/repo"), None);
    assert_eq!(strip_base("/repo", "/repo").as_deref(), Some(""));
    assert_eq!(strip_base("repo/a.ts", "/repo"), None);
    assert_eq!(join_path("/repo", "a"), "/repo/a");
    assert_eq!(join_path("/repo/", "a"), "/repo/a");
    assert_eq!(join_path("", "a"), "a");
}

#[test]
fn coverage_paths_become_relative() {
    assert_eq!(normalize_coverage_path("/repo/src/a.ts", "/repo"), "src/a.ts");
    assert_eq!(normalize_coverage_path("/else/a.ts", "/repo"), "/else/a.ts");
    assert_eq!(normalize_coverage_path("src/a.ts", "/repo"), "src/a.ts");
}

#[test]
fn languages_go_by_extension() {
    let registry = LanguageRegistry::default();
    for path in ["a.ts", "a.js", "a.tsx", "a.jsx", "a.rs", "a.c", "a.h"] {
        assert!(registry.get_support(path).is_some(), "{path}");
    }
    for path in ["a.py", "a", "a.RS", ".ts", "README.md"] {
        assert!(registry.get_support(path).is_none(), "{path}");
    }
}

#[test]
fn sets_and_maps_keep_their_order() {
    let mut list = texts(&["b", "a", "b", "c", "a"]);
    sort_and_dedup(&mut list);
    assert_eq!(list, texts(&["a", "b", "c"]));

    let mut map = TextMap::new();
    assert_eq!(map.insert("b".to_string(), 1), None);
    assert_eq!(map.insert("a".to_string(), 2), None);
    assert_eq!(map.insert("b".to_string(), 3), Some(1));
    assert_eq!(map.len(), 2);
    assert_eq!(map.key(0), "a");
    assert_eq!(*map.value(1), 3);
    assert_eq!(map.get("b"), Some(&3));
    assert_eq!(map.get("c"), None);
    map.extend(TextMap::from_entries(vec![
        ("c".to_string(), 4),
        ("a".to_string(), 5),
        ("c".to_string(), 6),
    ]));
    let keep = TextSet::from_items(texts(&["c", "a", "x"]));
    let map = map.retain(&keep);
    assert_eq!(
        map.into_entries(),
        vec![("a".to_string(), 5), ("c".to_string(), 6)]
    );

    let mut set = TextSet::from_items(texts(&["b", "a", "b"]));
    assert!(!set.insert("a".to_string()));
    assert!(set.insert("0".to_string()));
    set.absorb(&TextSet::from_items(texts(&["z", "a"])));
    assert_eq!(set.len(), 4);
    assert!(set.contains("z"));
    assert!(!set.contains("y"));
    assert_eq!(set.into_items(), texts(&["0", "a", "b", "z"]));
}

#[test]
fn texts_are_ordered_as_std_orders_them() {
    for (a, b) in [("", ""), ("", "a"), ("a", ""), ("ab", "b"), ("b", "ab"), ("é", "z")] {
        assert_eq!(text_at_most(a, b), a <= b, "{a:?} {b:?}");
    }
}

#[test]
fn sorting_is_stable() {
    assert_eq!(stable_sort(&CountOrder, vec![3, 1, 2, 1]), vec![1, 1, 2, 3]);
    assert_eq!(reversed(vec![1, 2, 3]), vec![3, 2, 1]);
    let sorted = stable_sort(
        &ScoreOrder,
        vec![score(1.5), score(-2.0), score(0.0), score(-0.0), score(-1.0)],
    );
    let expected = vec![score(-2.0), score(-1.0), score(-0.0), score(0.0), score(1.5)];
    assert_eq!(sorted, expected);
}

#[test]
fn scores_are_ordered_as_doubles() {
    let values = [-3.0, -0.5, -0.0, 0.0, 1e-300, 0.8, 2.0, f64::INFINITY];
    for a in values {
        for b in values {
            assert_eq!(
                score(a).at_most(score(b)),
                a.total_cmp(&b) != std::cmp::Ordering::Greater
            );
        }
    }
    assert_eq!(score(1.0).larger(score(2.0)), score(2.0));
    assert_eq!(score(2.0).larger(score(1.0)), score(2.0));
}

#[test]
fn the_policy_is_the_documented_one() {
    let policy = default_scoring_policy();
    let w = policy.weights;
    assert_eq!(
        (w.cognitive, w.churn, w.cyclomatic, w.loc, w.authors),
        (35, 30, 15, 10, 10)
    );
    assert_eq!((w.churn_recent, w.fan_in, w.coverage_gap), (0, 0, 0));
    let t = policy.thresholds;
    assert_eq!((t.critical, t.high, t.medium), (95, 80, 50));
    assert_eq!(
        policy.description,
        "Composite risk score based on complexity, churn, and team metrics."
    );
}

#[test]
fn percentiles_have_places_and_levels() {
    assert_eq!(percentile_index(1, 95), 0);
    assert_eq!(percentile_index(100, 95), 95);
    assert_eq!(percentile_index(100, 99), 99);
    assert_eq!(percentile_index(20, 95), 19);
    let level = |numerator, denominator| risk_level(Ratio { numerator, denominator });
    assert_eq!(level(95, 100), "critical");
    assert_eq!(level(94, 100), "high");
    assert_eq!(level(80, 100), "high");
    assert_eq!(level(79, 100), "medium");
    assert_eq!(level(1, 2), "medium");
    assert_eq!(level(49, 100), "low");
}

#[test]
fn the_first_of_the_largest_contributions_drives() {
    let zero = Contributions {
        cognitive: score(0.0),
        churn: score(0.0),
        churn_recent: score(0.0),
        fan_in: score(0.0),
        cyclomatic: score(0.0),
        loc: score(0.0),
        authors: score(0.0),
        coverage_gap: score(0.0),
    };
    assert_eq!(primary_driver(&zero), "cognitive");
    let tie = Contributions { loc: score(0.1), authors: score(0.1), ..zero };
    assert_eq!(primary_driver(&tie), "loc");
    let last = Contributions { coverage_gap: score(0.2), ..tie };
    assert_eq!(primary_driver(&last), "coverage_gap");
    let churn = Contributions { churn: score(0.3), ..last };
    assert_eq!(primary_driver(&churn), "churn");
}

#[test]
fn bodies_are_judged() {
    assert_eq!(
        count_lines(&chars("{\n  // a\n\n  x();\n /* b\n * c */\n}")),
        (3, 6)
    );
    assert_eq!(count_placeholders(&chars("// TODO: foo, foobar and Baz")), 5);
    assert_eq!(count_placeholders(&chars("nothing here")), 0);
    assert_eq!(documentation_quality(0, 20), "missing");
    assert_eq!(documentation_quality(79, 8), "sparse");
    assert_eq!(documentation_quality(80, 8), "adequate");
    assert_eq!(documentation_quality(1, 7), "adequate");
    assert_eq!(hollow_kind(false, 3), "none");
    assert_eq!(hollow_kind(true, 3), "comment_only");
    assert_eq!(hollow_kind(true, 0), "empty");
}

#[test]
fn coverage_records_are_read() {
    assert_eq!(parse_line_coverage(&chars("12,3")), Some((12, 3)));
    assert_eq!(parse_line_coverage(&chars("12,3,abc")), Some((12, 3)));
    assert_eq!(parse_line_coverage(&chars("12")), None);
    assert_eq!(parse_line_coverage(&chars("x,3")), None);
    assert_eq!(parse_line_coverage(&chars("4294967296,3")), None);
    assert_eq!(parse_line_coverage(&chars("+7,0")), Some((7, 0)));

    let taken = parse_branch_coverage(&chars("3,0,1,0")).expect("it should be read");
    assert_eq!((taken.line, taken.taken), (3, true));
    let missed = parse_branch_coverage(&chars("3,0,1,-")).expect("it should be read");
    assert!(!missed.taken);
    assert!(parse_branch_coverage(&chars("3,0,1")).is_none());
}

#[test]
fn coverage_reports_are_read() {
    let index = parse_lcov(
        "SF:/repo/a.ts\r\nDA:1,1\nDA:1,0\nend_of_record\nSF:b.ts\nDA:2,5\nBRDA:2,0,0,-\nSF:c.ts\n",
        "/repo",
    );
    assert_eq!(index.files.len(), 3);
    let a = index.files.get("a.ts").expect("a.ts should be covered");
    assert_eq!(a.lines.count(0, 10), (0, 1));
    let b = index.files.get("b.ts").expect("b.ts should be covered");
    assert_eq!(b.lines.count(1, 2), (1, 1));
    assert_eq!(b.branches.len(), 1);
    assert!(!b.branches[0].taken);
    assert!(index.files.get("c.ts").is_some());
}

#[test]
fn a_missing_file_is_no_error() {
    let mut warnings = Vec::new();
    assert!(config_content(FileRead::Missing, "uchikomi.toml", &mut warnings).is_none());
    let coverage = load_coverage_index(FileRead::Missing, "lcov.info", "/repo", &mut warnings);
    assert!(coverage.is_none());
    assert!(warnings.is_empty());

    let content = config_content(
        FileRead::Failed("denied".to_string()),
        "uchikomi.toml",
        &mut warnings,
    );
    assert!(content.is_none());
    let failed = FileRead::Failed("denied".to_string());
    assert!(load_coverage_index(failed, "lcov.info", "/repo", &mut warnings).is_none());
    let told = warnings
        .iter()
        .map(|w| (w.code.as_str(), w.message.as_str()))
        .collect::<Vec<_>>();
    assert_eq!(
        told,
        vec![
            ("config_read_failed", "Failed to read uchikomi.toml: denied"),
            ("coverage_read_failed", "Failed to read lcov.info: denied"),
        ]
    );
}

#[test]
fn settings_fall_back_to_the_default() {
    let mut warnings = Vec::new();
    let config = load_config(Some(Err("odd".to_string())), "uchikomi.toml", &mut warnings);
    assert!(config.git.bug_fix_patterns.is_empty());
    assert_eq!(warnings[0].code, "config_parse_failed");
    assert_eq!(warnings[0].message, "Failed to parse uchikomi.toml: odd");

    let broken = UchikomiConfig {
        git: GitConfig {
            bug_fix_patterns: texts(&["ok", "("]),
        },
    };
    let patterns = configured_bug_fix_patterns(&broken, &mut warnings);
    assert_eq!(warnings[1].code, "invalid_bug_fix_pattern");
    assert!(warnings[1]
        .message
        .starts_with("Invalid bug-fix pattern configuration: "));
    assert!(patterns.is_match("Fixes the parser"));
    let defaults = configured_bug_fix_patterns(&UchikomiConfig::empty(), &mut warnings);
    assert_eq!(defaults.cache_key(), patterns.cache_key());
    assert_eq!(warnings.len(), 2);
}

#[test]
fn a_cache_that_cannot_be_loaded_is_told() {
    let mut warnings = Vec::new();
    let cache = load_analysis_cache(Some(Err("torn".to_string())), &mut warnings);
    assert!(!cache.has_entries());
    assert_eq!(warnings[0].code, "cache_load_failed");
    assert_eq!(warnings[0].message, "Failed to load cache: torn");
    let cache = load_analysis_cache(None, &mut warnings);
    assert!(!cache.has_entries());
    assert_eq!(warnings.len(), 1);
}

#[test]
fn heads_are_told() {
    let unknown = unknown_repository_metadata();
    assert_eq!(unknown.branch, "unknown");
    assert_eq!(unknown.commit_hash, "");
    assert_eq!(unknown.timestamp, "1970-01-01T00:00:00+00:00");
    let head = metadata_from_head(
        None,
        Some(HeadCommit { id: "abc".to_string(), seconds: 1_700_000_000 }),
    );
    assert_eq!(head.branch, "unknown");
    assert_eq!(head.commit_hash, "abc");
    assert_eq!(head.timestamp, "2023-11-14T22:13:20+00:00");
    let far = metadata_from_head(
        Some("main".to_string()),
        Some(HeadCommit { id: "abc".to_string(), seconds: i64::MAX }),
    );
    assert_eq!(far.branch, "main");
    assert_eq!(far.timestamp, "1970-01-01T00:00:00+00:00");
    assert_eq!(metadata_from_head(None, None).commit_hash, "");
}

#[test]
fn a_history_that_fails_makes_the_analysis_partial() {
    let mut warnings = Vec::new();
    let mut cache = AnalysisCache::empty();
    let (files, status) = collect_git_analysis(
        HistoryOutcome::Failed("no head".to_string()),
        &mut cache,
        &mut warnings,
    );
    assert_eq!(files.len(), 0);
    assert!(status.available && status.partial);
    assert_eq!(warnings[0].code, "git_metrics_failed");
    assert_eq!(warnings[0].message, "Failed to collect Git metrics: no head");
    let (_, status) =
        collect_git_analysis(HistoryOutcome::NoRepository, &mut cache, &mut warnings);
    assert!(!status.available && !status.partial);
    assert_eq!(warnings.len(), 1);
}

#[test]
fn walk_entries_are_selected() {
    let registry = LanguageRegistry::new();
    let entry = |path: &str, is_file| {
        Ok(WalkEntry { path: path.to_string(), is_file })
    };
    let select = |found, shutdown| prepare_walk_entry(found, shutdown, "/repo", &registry);
    assert!(matches!(
        select(entry("/repo/src/a.rs", true), false),
        Some(Ok(path)) if path == "src/a.rs"
    ));
    assert!(select(entry("/repo/src/a.rs", true), true).is_none());
    assert!(select(entry("/repo/src", false), false).is_none());
    assert!(select(entry("/repo/README.md", true), false).is_none());
    match select(entry("/else/a.rs", true), false) {
        Some(Err(output)) => {
            assert_eq!(output.warnings[0].code, "path_error");
            assert_eq!(
                output.warnings[0].message,
                "Failed to strip prefix for /else/a.rs: prefix not found"
            );
        }
        _ => panic!("a stray path should be told"),
    }
    match select(Err("loop".to_string()), false) {
        Some(Err(output)) => {
            assert_eq!(output.warnings[0].code, "walk_entry_failed");
            assert_eq!(output.warnings[0].message, "Failed to read directory entry: loop");
        }
        _ => panic!("a failed entry should be told"),
    }
    assert!(matches!(relative_path_string("/repo/a", "/repo"), Ok(path) if path == "a"));
}

#[test]
fn files_that_cannot_be_analyzed_are_refused() {
    let registry = LanguageRegistry::new();
    let err = AnalysisWorker::process_file_from_source(b"x", "a.py", &registry)
        .expect_err("no such language");
    assert_eq!(err.into_cause(), "Unsupported language for a.py");
    let bytes = [0x66, 0xff, 0xfe];
    let err = AnalysisWorker::process_file_from_source(&bytes, "a.rs", &registry)
        .expect_err("no such text");
    let words = std::str::from_utf8(&bytes).expect_err("no such text").to_string();
    assert_eq!(err.into_cause(), words);
    let found = AnalysisWorker::process_file_from_source("fn é() {}".as_bytes(), "a.rs", &registry)
        .expect("it should be analyzed");
    assert_eq!(found[0].name, "é");
}

#[test]
fn unreadable_files_are_skipped() {
    let output = analyze_supported_file(
        Err("denied".to_string()),
        "a.rs".to_string(),
        &LanguageRegistry::new(),
        &AnalysisCache::empty(),
        &TextMap::new(),
        false,
        0,
        &|_weight: u128, _authors: usize| score(0.0),
    );
    assert_eq!(output.active_path.as_deref(), Some("a.rs"));
    assert_eq!(output.skipped_files[0].path, "a.rs");
    assert_eq!(output.skipped_files[0].reason, "failed to read file: denied");
    assert_eq!((output.cache_hit, output.cache_miss), (0, 0));
    assert!(output.cache_entry.is_none());
}

#[test]
fn histories_are_counted_per_function() {
    let mut git_cache = TextMap::new();
    git_cache.insert(
        "a.rs".to_string(),
        GitCacheEntry {
            times_modified: 2,
            bug_fix_commits: 1,
            authors: TextSet::from_items(texts(&["x", "y"])),
            line_changes: vec![
                LineChange {
                    commit: "c1".to_string(),
                    start_line: 1,
                    end_line: 1,
                    is_bug_fix: false,
                    author: "x".to_string(),
                    timestamp: 0,
                },
                LineChange {
                    commit: "c2".to_string(),
                    start_line: 3,
                    end_line: 9,
                    is_bug_fix: true,
                    author: "y".to_string(),
                    timestamp: 100 * 86400,
                },
            ],
        },
    );
    let output = analyze_supported_file(
        Ok(b"fn a() {}\n\nfn b() {}\n"),
        "a.rs".to_string(),
        &LanguageRegistry::new(),
        &AnalysisCache::empty(),
        &git_cache,
        true,
        100 * 86400,
        &|weight: u128, authors: usize| score(weight as f64 * 10.0 + authors as f64),
    );
    let a = &output.functions[0];
    assert_eq!((a.times_modified, a.bug_fix_commits, a.authors_count), (1, 0, 1));
    assert_eq!(a.authors, Some(texts(&["x"])));
    assert_eq!(a.churn_score, score(11.0));
    assert_eq!(a.churn.last_modified.as_deref(), Some("1970-01-01T00:00:00+00:00"));
    assert_eq!(a.churn.windows.d90.modifications, 0);
    assert_eq!(a.churn.velocity, "stable");
    let b = &output.functions[1];
    assert_eq!((b.times_modified, b.bug_fix_commits, b.authors_count), (1, 1, 1));
    assert_eq!(b.authors, Some(texts(&["y"])));
    assert_eq!(b.churn_score, score(31.0));
    assert_eq!(b.churn.windows.d7.modifications, 1);
    assert_eq!(b.churn.velocity, "accelerating");
}
