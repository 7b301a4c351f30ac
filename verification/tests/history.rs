use uchikomi::authors::{author_contributions, bus_factor, count_authors};
use uchikomi::cache::{GitCacheEntry, GitCacheMetadata, LineChange};
use uchikomi::git::batch::CommitOutcome;
use uchikomi::git::churn::{
    commit_timestamp, ranges_overlap, timestamp_or_fallback, velocity, GitAnalyzer,
};
use uchikomi::git::commits::{
    author_identity, changed_range_from_hunk, modified_files, CommitContent, CommitRecord,
    DiffFile, FileName, GitBatchMetrics, Hunk,
};
use uchikomi::git::history::add_counts;
use uchikomi::git::patterns::BugFixPatterns;
use uchikomi::git::plan::{GitAnalysisContext, GitMetricsResult, HistoryStep};
use uchikomi::score::Score;
use uchikomi::table::{TextMap, TextSet};

const OLD: &str = "1111111111111111111111111111111111111111";
const NEW: &str = "2222222222222222222222222222222222222222";

fn texts(list: &[&str]) -> Vec<String> {
    list.iter().map(|text| text.to_string()).collect()
}

fn score(value: f64) -> Score {
    Score { bits: value.to_bits() }
}

fn change(commit: &str, author: &str, lines: (u32, u32), is_bug_fix: bool) -> LineChange {
    LineChange {
        commit: commit.to_string(),
        start_line: lines.0,
        end_line: lines.1,
        is_bug_fix,
        author: author.to_string(),
        timestamp: 0,
    }
}

fn entry(times: usize, fixes: usize, authors: &[&str], changes: Vec<LineChange>) -> GitCacheEntry {
    GitCacheEntry {
        times_modified: times,
        bug_fix_commits: fixes,
        authors: TextSet::from_items(texts(authors)),
        line_changes: changes,
    }
}

fn diff(old: &str, new: &str, renamed: bool, hunks: Vec<Hunk>) -> DiffFile {
    DiffFile {
        old_name: FileName::Text(old.to_string()),
        new_name: FileName::Text(new.to_string()),
        renamed,
        hunks,
    }
}

fn commit(id: &str, message: &str, content: CommitContent) -> CommitRecord {
    CommitRecord {
        id: id.to_string(),
        email: Some("me@example.com".to_string()),
        name: None,
        message: Some(message.to_string()),
        timestamp: 7,
        content,
    }
}

fn context(branch: &str) -> GitAnalysisContext {
    GitAnalysisContext {
        repo_path: "/repo".to_string(),
        branch: branch.to_string(),
        head_oid: NEW.to_string(),
    }
}

fn metadata(branch: &str, patterns: &BugFixPatterns) -> Option<GitCacheMetadata> {
    Some(GitCacheMetadata {
        repository_path: "/repo".to_string(),
        branch: branch.to_string(),
        head_oid: OLD.to_string(),
        algorithm_version: 2,
        bug_fix_patterns_hash: patterns.cache_key().to_string(),
    })
}

fn kept() -> TextMap<GitCacheEntry> {
    TextMap::from_entries(vec![("a".to_string(), entry(1, 0, &["x"], Vec::new()))])
}

fn start(
    metadata: &Option<GitCacheMetadata>,
    last: Option<&str>,
) -> (GitMetricsResult, HistoryStep) {
    GitAnalyzer::start_history(
        kept(),
        metadata,
        &last.map(str::to_string),
        &context("main"),
        &BugFixPatterns::default(),
    )
    .expect("the head should be readable")
}

#[test]
fn default_patterns_find_bug_fixes() {
    let patterns = BugFixPatterns::default();
    for message in [
        "fix it",
        "Fixed it",
        "fixes #1",
        "a BUG",
        "two bugs",
        "issue 7",
        "closes #3",
        "closing",
        "resolved",
        "Resolving conflicts",
    ] {
        assert!(patterns.is_match(message), "{message}");
    }
    for message in ["prefix", "debugger", "tissue", "enclosed", "add feature", ""] {
        assert!(!patterns.is_match(message), "{message}");
    }
}

#[test]
fn patterns_have_keys() {
    let none = BugFixPatterns::from_patterns(&Vec::new()).expect("defaults should compile");
    assert_eq!(none.cache_key(), BugFixPatterns::default().cache_key());
    let own = BugFixPatterns::from_patterns(&texts(&["A", "B"])).expect("it should compile");
    assert_eq!(
        own.cache_key(),
        format!("{:032x}", xxhash_rust::xxh3::xxh3_128(b"A\nB"))
    );
    assert!(own.is_match("xB"));
    assert!(!own.is_match("fix"));
    let err = match BugFixPatterns::from_patterns(&texts(&["A", "["])) {
        Ok(_) => panic!("it should not compile"),
        Err(err) => err,
    };
    let words = regex::Regex::new("[").expect_err("it should not compile").to_string();
    assert_eq!(err.into_cause(), words);
}

#[test]
fn times_are_written_by_rfc_3339() {
    assert_eq!(commit_timestamp(0), "1970-01-01T00:00:00+00:00");
    assert_eq!(commit_timestamp(1_700_000_000), "2023-11-14T22:13:20+00:00");
    assert_eq!(commit_timestamp(-1), "1969-12-31T23:59:59+00:00");
    assert_eq!(commit_timestamp(i64::MIN), "1970-01-01T00:00:00+00:00");
    assert_eq!(timestamp_or_fallback(Some("then".to_string())), "then");
    assert_eq!(timestamp_or_fallback(None), "1970-01-01T00:00:00+00:00");
}

#[test]
fn ranges_overlap_where_they_share_a_line() {
    assert!(ranges_overlap(1, 3, 3, 5));
    assert!(ranges_overlap(2, 2, 1, 9));
    assert!(!ranges_overlap(1, 2, 3, 5));
    assert!(!ranges_overlap(6, 7, 3, 5));
}

#[test]
fn velocity_compares_rates() {
    assert_eq!(velocity(0, 0), "stable");
    assert_eq!(velocity(7, 90), "stable");
    assert_eq!(velocity(35, 360), "stable");
    assert_eq!(velocity(36, 360), "accelerating");
    assert_eq!(velocity(21, 360), "stable");
    assert_eq!(velocity(20, 360), "cooling");
    assert_eq!(velocity(0, 1), "cooling");
}

#[test]
fn a_whole_file_has_at_least_one_author() {
    let m = GitAnalyzer::compute_churn_metrics(
        &entry(3, 2, &[], Vec::new()),
        0,
        &|weight: u128, authors: usize| score(weight as f64 * (authors as f64 + 1.0).log10()),
    );
    assert_eq!((m.times_modified, m.bug_fix_commits, m.authors_count), (3, 2, 1));
    assert_eq!(m.churn_score, score(7.0 * 2.0_f64.log10()));
    assert!(m.authors.is_empty());
}

#[test]
fn each_commit_counts_once_per_range() {
    let file = entry(
        9,
        9,
        &["x"],
        vec![
            change("c1", "x", (1, 5), false),
            change("c1", "x", (6, 9), false),
            change("c2", "y", (9, 20), true),
            change("c3", "z", (30, 40), true),
        ],
    );
    let weigh = |weight: u128, authors: usize| score((weight * 100 + authors as u128) as f64);
    let m = GitAnalyzer::compute_churn_metrics_for_range(&file, 4, 10, 0, &weigh);
    assert_eq!((m.times_modified, m.bug_fix_commits, m.authors_count), (2, 1, 2));
    assert_eq!(m.authors, texts(&["x", "y"]));
    assert_eq!(m.churn_score, score(402.0));
    let none = GitAnalyzer::compute_churn_metrics_for_range(&file, 21, 29, 0, &weigh);
    assert_eq!((none.times_modified, none.authors_count), (0, 0));
    assert_eq!(none.churn_score, score(0.0));
    assert_eq!(none.last_modified, None);
}

#[test]
fn hunks_change_at_least_one_line() {
    let range = |new_start, new_lines| {
        let r = changed_range_from_hunk(Hunk { new_start, new_lines });
        (r.start_line, r.end_line)
    };
    assert_eq!(range(3, 4), (3, 6));
    assert_eq!(range(3, 0), (3, 3));
    assert_eq!(range(0, 0), (1, 1));
    assert_eq!(range(u32::MAX, 5), (u32::MAX, u32::MAX - 1));
}

#[test]
fn authors_go_by_email() {
    assert_eq!(author_identity(Some("e"), Some("n")), "e");
    assert_eq!(author_identity(None, Some("n")), "n");
    assert_eq!(author_identity(None, None), "Unknown");
}

#[test]
fn a_first_commit_changes_whole_files() {
    let content = CommitContent::Files(vec![
        ("".to_string(), "src".to_string()),
        ("src/".to_string(), "a.rs".to_string()),
    ]);
    let m = modified_files(&content);
    assert_eq!(m.files.len(), 2);
    let ranges = m.files.get("src/a.rs").expect("the file should be changed");
    assert_eq!((ranges[0].start_line, ranges[0].end_line), (1, 1_000_000_000));
}

#[test]
fn a_merge_keeps_the_diff_with_its_last_parent() {
    let content = CommitContent::Diffs(vec![
        vec![
            diff("a", "a", false, vec![Hunk { new_start: 1, new_lines: 2 }]),
            diff("b", "c", true, Vec::new()),
        ],
        vec![diff("a", "a", false, vec![Hunk { new_start: 8, new_lines: 1 }])],
    ]);
    let m = modified_files(&content);
    assert_eq!(m.files.len(), 2);
    let ranges = m.files.get("a").expect("the file should be changed");
    assert_eq!(ranges.len(), 1);
    assert_eq!((ranges[0].start_line, ranges[0].end_line), (8, 8));
    assert_eq!(m.renames, vec![("b".to_string(), "c".to_string())]);
}

#[test]
fn names_that_are_no_text_are_left_out() {
    let content = CommitContent::Diffs(vec![vec![
        DiffFile {
            old_name: FileName::Text("gone".to_string()),
            new_name: FileName::Missing,
            renamed: false,
            hunks: vec![Hunk { new_start: 0, new_lines: 0 }],
        },
        DiffFile {
            old_name: FileName::Text("x".to_string()),
            new_name: FileName::Unreadable,
            renamed: true,
            hunks: vec![Hunk { new_start: 1, new_lines: 1 }],
        },
    ]]);
    let m = modified_files(&content);
    assert_eq!(m.files.len(), 1);
    assert!(m.files.get("gone").is_some());
    assert!(m.renames.is_empty());
}

#[test]
fn a_commit_adds_to_its_files() {
    let content = CommitContent::Diffs(vec![vec![
        diff("a", "a", false, vec![Hunk { new_start: 4, new_lines: 2 }]),
        diff("b", "b", false, Vec::new()),
    ]]);
    let record = commit(OLD, "fix things", content);
    let m = GitAnalyzer::process_commit(&record, &BugFixPatterns::default());
    let a = m.files.get("a").expect("a should have a history");
    assert_eq!((a.times_modified, a.bug_fix_commits), (1, 1));
    assert!(a.authors.contains("me@example.com"));
    assert_eq!((a.line_changes[0].start_line, a.line_changes[0].end_line), (4, 5));
    assert_eq!(a.line_changes[0].timestamp, 7);
    assert!(a.line_changes[0].is_bug_fix);
    let b = m.files.get("b").expect("b should have a history");
    assert_eq!(b.line_changes[0].end_line, 1_000_000_000);
    let plain = GitAnalyzer::add_commit(&record, false);
    assert_eq!(plain.files.get("a").map(|a| a.bug_fix_commits), Some(0));
}

#[test]
fn parts_of_a_history_make_up_the_whole() {
    let patterns = BugFixPatterns::default();
    let one = || CommitOutcome {
        id: OLD.to_string(),
        record: Ok(commit(
            OLD,
            "add",
            CommitContent::Files(vec![("".to_string(), "a".to_string())]),
        )),
    };
    let two = || CommitOutcome {
        id: NEW.to_string(),
        record: Ok(commit(
            NEW,
            "fix",
            CommitContent::Diffs(vec![vec![diff("a", "b", true, Vec::new())]]),
        )),
    };
    let bad = || CommitOutcome {
        id: "x".to_string(),
        record: Err("lost".to_string()),
    };
    let whole = GitAnalyzer::process_commit_chunk(&vec![one(), bad(), two()], &patterns);
    let mut parts = GitBatchMetrics::empty();
    for part in [vec![one()], vec![bad()], vec![two()]] {
        let metrics = GitAnalyzer::process_commit_chunk(&part, &patterns);
        GitAnalyzer::merge_batch_metrics(&mut parts, metrics);
    }
    for m in [&whole, &parts] {
        assert_eq!(m.processed_commits, 2);
        assert!(m.partial);
        assert_eq!(m.warnings, texts(&["Failed to process commit x: lost"]));
        assert_eq!(m.renames, vec![("a".to_string(), "b".to_string())]);
        assert_eq!(m.files.len(), 2);
        assert_eq!(m.files.get("b").map(|b| b.bug_fix_commits), Some(1));
    }
    let none = GitBatchMetrics::unavailable("/repo", "locked");
    assert!(none.partial);
    assert_eq!(none.warnings, texts(&["Failed to open repository /repo: locked"]));
}

#[test]
fn counts_stop_at_the_largest_number() {
    assert_eq!(add_counts(1, 2), 3);
    assert_eq!(add_counts(usize::MAX, 2), usize::MAX);
}

#[test]
fn renames_are_followed_to_the_current_name() {
    let aliases = TextMap::from_entries(vec![
        ("a".to_string(), "b".to_string()),
        ("b".to_string(), "c".to_string()),
        ("x".to_string(), "y".to_string()),
        ("y".to_string(), "x".to_string()),
    ]);
    assert_eq!(GitAnalyzer::resolve_rename_alias("a", &aliases), "c");
    assert_eq!(GitAnalyzer::resolve_rename_alias("c", &aliases), "c");
    assert_eq!(GitAnalyzer::resolve_rename_alias("x", &aliases), "x");

    let mut cache = TextMap::from_entries(vec![
        ("a".to_string(), entry(2, 1, &["x"], Vec::new())),
        ("c".to_string(), entry(3, 0, &["y"], Vec::new())),
    ]);
    let renames = vec![
        ("a".to_string(), "b".to_string()),
        ("b".to_string(), "c".to_string()),
    ];
    GitAnalyzer::apply_rename_aliases(&mut cache, &renames);
    let c = cache.get("c").expect("c should have a history");
    assert_eq!((c.times_modified, c.bug_fix_commits, c.authors.len()), (5, 1, 2));
    assert_eq!(cache.get("a").map(|a| a.times_modified), Some(2));
}

#[test]
fn a_kept_history_is_used_where_it_fits() {
    let patterns = BugFixPatterns::default();
    let (result, step) = start(&metadata("main", &patterns), Some(NEW));
    assert!(matches!(step, HistoryStep::Finished));
    assert_eq!(result.cache.len(), 1);
    assert!(!result.cache_reset);

    let (result, step) = start(&metadata("main", &patterns), Some(OLD));
    assert!(matches!(step, HistoryStep::CheckAncestor(oid) if oid == OLD));
    assert_eq!(result.cache.len(), 1);
    assert_eq!(result.metadata.head_oid, NEW);
}

#[test]
fn a_kept_history_is_dropped_where_it_does_not_fit() {
    let patterns = BugFixPatterns::default();
    let other = BugFixPatterns::from_patterns(&texts(&["X"])).expect("it should compile");
    for (metadata, last) in [
        (None, Some(OLD)),
        (metadata("other", &patterns), Some(OLD)),
        (metadata("main", &other), Some(OLD)),
        (metadata("main", &patterns), None),
    ] {
        let (result, step) = start(&metadata, last);
        assert!(matches!(step, HistoryStep::WalkAll));
        assert_eq!(result.cache.len(), 0);
        assert!(result.cache_reset);
        assert!(result.warnings.is_empty());
    }
    let (result, step) = start(&metadata("main", &patterns), Some("no oid"));
    assert!(matches!(step, HistoryStep::WalkAll));
    assert!(result.cache_reset);
    let words = git2::Oid::from_str("no oid").expect_err("it is none").to_string();
    assert_eq!(
        result.warnings,
        vec![format!(
            "Cached Git commit 'no oid' is invalid: {words}. Git cache was rebuilt."
        )]
    );
}

#[test]
fn a_head_that_cannot_be_read_is_an_error() {
    let patterns = BugFixPatterns::default();
    let mut context = context("main");
    context.head_oid = "none".to_string();
    let r = GitAnalyzer::start_history(
        kept(),
        &metadata("main", &patterns),
        &Some(OLD.to_string()),
        &context,
        &patterns,
    );
    let words = git2::Oid::from_str("none").expect_err("it is none").to_string();
    match r {
        Err(err) => assert_eq!(err.message(), format!("Git error: {words}")),
        Ok(_) => panic!("the head should not be readable"),
    }
}

#[test]
fn a_history_resumes_from_what_was_read() {
    let fresh = || start(&metadata("main", &BugFixPatterns::default()), Some(OLD)).0;
    let ok = |text: &str| Ok(text.to_string());
    let resume = |head, kept| GitAnalyzer::resume_history(fresh(), "k", head, kept);
    assert!(matches!(resume(ok("h"), ok("h")), Ok((_, HistoryStep::Finished))));
    assert!(matches!(
        resume(ok("h"), ok("k")),
        Ok((_, HistoryStep::CheckAncestor(oid))) if oid == "k"
    ));
    assert!(resume(Err("e".to_string()), ok("k")).is_err());
    match resume(ok("h"), Err("e".to_string())) {
        Ok((result, HistoryStep::WalkAll)) => assert_eq!(
            result.warnings,
            texts(&["Cached Git commit 'k' is invalid: e. Git cache was rebuilt."])
        ),
        _ => panic!("the kept history should be dropped"),
    }
}

#[test]
fn history_steps_go_on() {
    let fresh = || start(&metadata("main", &BugFixPatterns::default()), Some(OLD)).0;
    let mut result = fresh();
    let step = GitAnalyzer::ancestor_checked(&mut result, OLD.to_string(), true);
    assert!(matches!(step, HistoryStep::WalkBehind(oid) if oid == OLD));
    assert_eq!(result.cache.len(), 1);
    let step = GitAnalyzer::ancestor_checked(&mut result, OLD.to_string(), false);
    assert!(matches!(step, HistoryStep::WalkAll));
    assert_eq!(result.cache.len(), 0);
    assert_eq!(
        result.warnings[0],
        format!("Cached Git commit {OLD} is not an ancestor of HEAD. Git cache was rebuilt.")
    );
    let mut result = fresh();
    GitAnalyzer::hiding_failed(&mut result, OLD, "odd");
    assert!(result.cache_reset);
    assert_eq!(
        result.warnings[0],
        format!("Failed to hide cached Git commit {OLD}: odd. Git cache was rebuilt.")
    );
}

#[test]
fn authors_are_credited() {
    let cache = TextMap::from_entries(vec![
        ("a".to_string(), entry(4, 0, &["x", "y"], Vec::new())),
        (
            "b".to_string(),
            entry(
                9,
                0,
                &["x", "z"],
                vec![
                    change("1", "x", (1, 1), false),
                    change("1", "x", (2, 2), false),
                    change("2", "z", (1, 1), false),
                ],
            ),
        ),
    ]);
    assert_eq!(count_authors(&cache), 3);
    let credits = author_contributions(&cache);
    assert_eq!(credits.get("x"), Some(&6));
    assert_eq!(credits.get("y"), Some(&4));
    assert_eq!(credits.get("z"), Some(&1));
    assert_eq!(bus_factor(&credits), 1);
}

#[test]
fn the_bus_factor_is_how_few_hold_half() {
    let factor = |counts: &[usize]| {
        let entries = counts
            .iter()
            .enumerate()
            .map(|(i, count)| (format!("author {i}"), *count))
            .collect();
        bus_factor(&TextMap::from_entries(entries))
    };
    assert_eq!(factor(&[]), 0);
    assert_eq!(factor(&[0, 0]), 0);
    assert_eq!(factor(&[5, 5]), 1);
    assert_eq!(factor(&[1, 1, 1]), 2);
    assert_eq!(factor(&[2, 2, 2, 2, 2]), 3);
    assert_eq!(factor(&[1, 10, 1]), 1);
}

#[test]
fn merging_histories_commutes_but_for_order() {
    let a = || {
        TextMap::from_entries(vec![
            ("p".to_string(), entry(1, 1, &["x"], vec![change("1", "x", (1, 1), true)])),
            ("q".to_string(), entry(2, 0, &["y"], Vec::new())),
        ])
    };
    let b = || {
        TextMap::from_entries(vec![(
            "p".to_string(),
            entry(3, 0, &["z"], vec![change("2", "z", (2, 2), false)]),
        )])
    };
    let mut ab = a();
    GitAnalyzer::merge_git_cache(&mut ab, b());
    let mut ba = b();
    GitAnalyzer::merge_git_cache(&mut ba, a());
    for merged in [&ab, &ba] {
        let p = merged.get("p").expect("p should have a history");
        assert_eq!((p.times_modified, p.bug_fix_commits, p.authors.len()), (4, 1, 2));
        assert_eq!(p.line_changes.len(), 2);
        assert_eq!(merged.get("q").map(|q| q.times_modified), Some(2));
    }
    assert_eq!(ab.get("p").map(|p| p.line_changes[0].commit.as_str()), Some("1"));
    assert_eq!(ba.get("p").map(|p| p.line_changes[0].commit.as_str()), Some("2"));
}

#[test]
fn wider_windows_hold_all_of_narrower_ones() {
    let day = 86400;
    let changes = [1, 10, 40, 100]
        .iter()
        .map(|age| LineChange {
            timestamp: (1000 - age) * day,
            ..change(&format!("c{age}"), "x", (1, 1), false)
        })
        .collect();
    let m = GitAnalyzer::compute_churn_metrics_for_range(
        &entry(4, 0, &["x"], changes),
        1,
        1,
        1000 * day,
        &|weight: u128, _authors: usize| score(weight as f64),
    );
    assert_eq!(m.times_modified, 4);
    assert_eq!(m.windows.d7.modifications, 1);
    assert_eq!(m.windows.d30.modifications, 2);
    assert_eq!(m.windows.d90.modifications, 3);
    assert_eq!(m.windows.d90.score, score(3.0));
    assert_eq!(m.velocity, "accelerating");
    assert_eq!(m.last_modified, Some(commit_timestamp(999 * day)));
}

#[test]
fn the_same_commits_always_make_up_the_same_history() {
    let patterns = BugFixPatterns::default();
    let read = || {
        let commits = vec![
            CommitOutcome {
                id: OLD.to_string(),
                record: Ok(commit(
                    OLD,
                    "fix",
                    CommitContent::Files(vec![("".to_string(), "a".to_string())]),
                )),
            },
            CommitOutcome {
                id: NEW.to_string(),
                record: Ok(commit(
                    NEW,
                    "move",
                    CommitContent::Diffs(vec![vec![diff("a", "b", true, Vec::new())]]),
                )),
            },
        ];
        let (mut result, _) = start(&None, None);
        let batch = GitAnalyzer::process_commit_chunk(&commits, &patterns);
        GitAnalyzer::finish_history(&mut result, batch);
        result
    };
    let (first, second) = (read(), read());
    assert_eq!(first.cache.len(), second.cache.len());
    for result in [&first, &second] {
        let b = result.cache.get("b").expect("the file should have a history");
        assert_eq!(b.times_modified, 2);
        assert_eq!(b.bug_fix_commits, 1);
        assert_eq!(result.processed_commits, 2);
    }
    let told = |b: Option<&GitCacheEntry>| format!("{:?}", b.map(|b| &b.line_changes));
    assert_eq!(told(first.cache.get("b")), told(second.cache.get("b")));
}

#[test]
fn identifiers_may_be_short_and_in_either_case() {
    let patterns = BugFixPatterns::default();
    let run = |head: &str, last: &str| {
        let mut context = context("main");
        context.head_oid = head.to_string();
        GitAnalyzer::start_history(
            kept(),
            &metadata("main", &patterns),
            &Some(last.to_string()),
            &context,
            &patterns,
        )
    };
    let full = format!("abc{}", "0".repeat(37));
    assert!(matches!(run(&full, "aBC"), Ok((_, HistoryStep::Finished))));
    assert!(matches!(
        run(&full, "F"),
        Ok((_, HistoryStep::CheckAncestor(oid))) if oid == format!("f{}", "0".repeat(39))
    ));
    for bad in ["", "g", "0x1", &"0".repeat(41), "\u{e9}"] {
        let words = git2::Oid::from_str(bad).expect_err("it is none").to_string();
        match run(bad, "1") {
            Err(err) => assert_eq!(err.into_cause(), words),
            Ok(_) => panic!("the head should not be readable"),
        }
    }
}
